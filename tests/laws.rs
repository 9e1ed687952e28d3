use leaps_and_bounds::bounds::Bounds;
use leaps_and_bounds::candidate::Candidate;
use leaps_and_bounds::decimal::decimal;
use leaps_and_bounds::frontier::Frontier;
use leaps_and_bounds::lehmer_code::permutation_rank;
use leaps_and_bounds::pair_set::PairSet;
use std::usize::MAX;

#[test]
fn bounds_stay_ordered_through_updates() {
    let mut bounds = Bounds::new(4);
    bounds.update(0, 3);
    bounds.update(0, 4);
    bounds.update(2, 9);
    bounds.update(2, 10);
    bounds.update(5, 10);

    assert_eq!(bounds.lower_bounds, vec![4, 9, 10, 10, 10, 10]);
    assert_eq!(bounds.upper_bounds, vec![4, 9, 10, 10, 10, 14]);
    assert_eq!(bounds.thresholds, vec![0, 5, 6, 6, 6, 6]);
    for w in 0..bounds.lower_bounds.len() {
        assert!(bounds.lower_bounds[w] <= bounds.upper_bounds[w]);
        assert!(bounds.upper_bounds[w] <= bounds.max);
    }
    for w in 1..bounds.lower_bounds.len() {
        assert!(bounds.lower_bounds[w - 1] <= bounds.lower_bounds[w]);
    }
}

#[test]
fn an_update_that_does_not_beat_the_bound_changes_nothing() {
    let mut bounds = Bounds::new(5);
    bounds.update(0, 5);
    bounds.update(2, 9);
    let lower = bounds.lower_bounds.clone();
    let upper = bounds.upper_bounds.clone();
    let thresholds = bounds.thresholds.clone();

    assert_eq!(bounds.update(2, 9), false);
    assert_eq!(bounds.update(1, 4), false);
    assert_eq!(bounds.lower_bounds, lower);
    assert_eq!(bounds.upper_bounds, upper);
    assert_eq!(bounds.thresholds, thresholds);
}

#[test]
fn the_ceiling_caps_at_the_factorial() {
    let mut bounds = Bounds::new(3);
    bounds.update(0, 3);
    bounds.update(1, 5);

    assert_eq!(bounds.upper_bounds, vec![3, 6]);
    assert_eq!(bounds.upper(1), 6);
    assert_eq!(bounds.upper(7), 6);
    assert_eq!(bounds.found_for_superpermutation(), false);
    bounds.update(1, 6);
    assert_eq!(bounds.found_for_superpermutation(), true);
}

#[test]
fn factorials() {
    assert_eq!(Bounds::factorial(0), 1);
    assert_eq!(Bounds::factorial(5), 120);
    assert_eq!(Bounds::factorial(20), 2432902008176640000);
}

#[test]
fn candidates_stay_within_their_limits() {
    let n = 4;
    let mut layer = vec![Candidate::seed(n)];
    for _ in 0..5 {
        let mut next = vec![];
        for c in layer {
            for child in c.expand(MAX, n) {
                assert!(child.number_of_permutations() <= 24);
                assert!(child.tail_of_string.len() >= 1);
                assert!(child.tail_of_string.len() <= n);
                assert!(child.permutations_seen.iter().all(|id| id < 24));
                next.push(child);
            }
        }
        layer = next;
    }
    assert_eq!(layer.len(), 243);
}

#[test]
fn a_one_symbol_seed_has_no_children() {
    let seed = Candidate::seed(1);
    assert_eq!(seed.tail_of_string, Vec::<u8>::new());
    assert_eq!(seed.number_of_permutations(), 1);
    assert_eq!(seed.expand(1, 1).len(), 0);
}

#[test]
fn the_penalty_looks_ahead_to_the_forced_permutation() {
    // The string 012340123 has seen 01234, 12340, 23401, 34012 and 40123.
    // Appending 4 repeats 01234, and the only permutation that could come
    // next, 12340, is seen too: two symbols are charged at once.
    let seed = Candidate::seed(5);
    let c = seed.expand_one(0, false, 5);
    let c = c.expand_one(1, false, 5);
    let c = c.expand_one(2, false, 5);
    let c = c.expand_one(3, false, 5);
    assert_eq!(c.number_of_permutations(), 5);
    let c = c.expand_one(4, false, 5);
    assert_eq!(c.wasted_symbols, 2);
    assert_eq!(c.total_waste(5), 2);
}

#[test]
fn pruned_buckets_are_below_the_threshold() {
    let n = 5;
    let mut frontier = Frontier::new(MAX, false, false, n);
    for c in Candidate::seed(n).expand(MAX, n) {
        frontier.add(c, n);
    }
    let mut bounds = Bounds::new(n);
    bounds.update(0, 2);
    bounds.update(1, 3);
    let threshold = bounds.thresholds[1];
    assert_eq!(threshold, 1);
    frontier.prune(1, threshold, true);

    for w in 0..4 {
        for p in 0..3 {
            if frontier.disabled.contains(w, p) {
                assert!(w >= 1 && p < threshold);
            }
        }
    }
    assert!(frontier.disabled.contains(3, 0));
    assert!(!frontier.disabled.contains(1, 1));
}

#[test]
fn pruning_twice_is_pruning_once() {
    let n = 5;
    let mut once = Frontier::new(MAX, false, false, n);
    let mut twice = Frontier::new(MAX, false, false, n);
    for c in Candidate::seed(n).expand(MAX, n) {
        once.add(c, n);
    }
    for c in Candidate::seed(n).expand(MAX, n) {
        twice.add(c, n);
    }
    once.prune(1, 2, true);
    twice.prune(1, 2, true);
    twice.prune(1, 2, true);

    assert_eq!(once.len(), twice.len());
    assert_eq!(once.enabled_queue.len(), twice.enabled_queue.len());
    assert_eq!(once.disabled_queue.len(), twice.disabled_queue.len());
    for w in 0..5 {
        for p in 0..4 {
            assert_eq!(once.disabled.contains(w, p), twice.disabled.contains(w, p));
            assert_eq!(once.enabled_queue.cell_len(w, p), twice.enabled_queue.cell_len(w, p));
            assert_eq!(once.disabled_queue.cell_len(w, p), twice.disabled_queue.cell_len(w, p));
        }
    }
    let a: Vec<Candidate> = std::iter::from_fn(|| once.next()).collect();
    let b: Vec<Candidate> = std::iter::from_fn(|| twice.next()).collect();
    assert_eq!(a, b);
}

#[test]
fn lehmer_codes_rank_permutations() {
    assert_eq!(permutation_rank(&[0, 1, 2, 3, 4]), 0);
    assert_eq!(permutation_rank(&[1, 2, 3, 4, 0]), 33);
    assert_eq!(permutation_rank(&[4, 3, 2, 1, 0]), 119);
    assert_eq!(permutation_rank(&[2, 0, 1]), 4);
}

#[test]
fn numbers_in_decimal() {
    assert_eq!(decimal(0), "0");
    assert_eq!(decimal(7), "7");
    assert_eq!(decimal(10), "10");
    assert_eq!(decimal(1234567890), "1234567890");
}

#[test]
fn the_memory_limit_counts_candidates() {
    assert_eq!(Frontier::memory_per_candidate(5), 55);
    assert_eq!(Frontier::memory_per_candidate(1), 9);
    assert_eq!(Frontier::memory_per_candidate(4), 35);
    let frontier = Frontier::new(550, false, false, 5);
    assert_eq!(frontier.queue_limit, 10);
    assert_eq!(frontier.disk.path, "scratch-files");
}

#[test]
fn pair_sets_hold_pairs() {
    let mut set = PairSet::new();
    assert_eq!(set.contains(2, 3), false);
    assert_eq!(set.insert(2, 3), true);
    assert_eq!(set.insert(2, 3), false);
    assert_eq!(set.contains(2, 3), true);
    assert_eq!(set.contains(3, 2), false);
    assert_eq!(set.rows(), 3);
    assert_eq!(set.remove(2, 3), true);
    assert_eq!(set.remove(2, 3), false);
    assert_eq!(set.contains(2, 3), false);
}
