use leaps_and_bounds::bounds::Bounds;
use leaps_and_bounds::candidate::Candidate;
use leaps_and_bounds::frontier::Frontier;
use leaps_and_bounds::search::{run_in_memory, Search, Step};

const STEPS: usize = 100_000_000;

fn length(n: usize, lower_bounds: &Vec<usize>) -> usize {
    let waste = lower_bounds.len() - 1;
    n - 1 + Bounds::factorial(n) + waste
}

#[test]
fn one_symbol_fits_at_once() {
    let lower_bounds = run_in_memory(1, STEPS).unwrap();
    assert_eq!(lower_bounds, vec![1]);
    assert_eq!(length(1, &lower_bounds), 1);
}

#[test]
fn two_symbols_fit_without_waste() {
    let lower_bounds = run_in_memory(2, STEPS).unwrap();
    assert_eq!(lower_bounds, vec![2]);
    assert_eq!(length(2, &lower_bounds), 3);
}

// The length of a shortest superpermutation is n - 1 + n! + waste, where
// waste is the last level of the table. On three symbols 123121321 holds
// all six permutations with one wasted symbol: 2 + 6 + 1 = 9.
#[test]
fn three_symbols_need_nine() {
    let lower_bounds = run_in_memory(3, STEPS).unwrap();
    assert_eq!(lower_bounds, vec![3, 6]);
    assert_eq!(length(3, &lower_bounds), 9);
}

// On four symbols the shortest superpermutations have 33 symbols, so all
// 24 permutations fit with six wasted: 3 + 24 + 6 = 33.
#[test]
fn four_symbols_need_thirty_three() {
    let lower_bounds = run_in_memory(4, STEPS).unwrap();
    assert_eq!(lower_bounds, vec![4, 8, 12, 14, 18, 20, 24]);
    assert_eq!(length(4, &lower_bounds), 33);
}

#[test]
fn the_search_stops_when_its_steps_run_out() {
    assert_eq!(run_in_memory(4, 3), None);
}

#[test]
fn a_search_starts_from_the_seed() {
    let mut search = Search::new(3, usize::MAX, false, false);
    assert_eq!(search.frontier.len(), 1);
    assert_eq!(search.begin(), Step::Ready(0));
    assert_eq!(search.advance(0), Step::Continue);
    assert_eq!(search.bounds.lower_bounds, vec![1]);
    assert_eq!(search.frontier.len(), 2);
}

fn drain(frontier: &mut Frontier) -> Vec<Candidate> {
    let mut popped = vec![];
    while let Some(c) = frontier.next() {
        popped.push(c);
    }
    popped
}

fn spill_scenario(memory_limit: usize) -> (Vec<Candidate>, usize) {
    let mut frontier = Frontier::new(memory_limit, false, false, 5);
    for _ in 0..1000 {
        frontier.add(Candidate::seed(5), 5);
    }
    frontier.disable(&(0, 1));
    let child = Candidate::seed(5).expand(120, 5).into_iter().last().unwrap();
    frontier.add(child, 5);

    let spilled = frontier.spills.len();
    let mut jobs = std::mem::take(&mut frontier.spills);

    assert!(frontier.enable(&(0, 1)));
    for load in std::mem::take(&mut frontier.loads) {
        let position = jobs.iter().position(|j| j.filename == load.filename).unwrap();
        let job = jobs.remove(position);
        frontier.install(load.wasted_symbols, load.permutations, job.bucket);
    }
    (drain(&mut frontier), spilled)
}

#[test]
fn spilling_and_loading_back_keeps_the_order_of_candidates() {
    let (with_spill, spilled) = spill_scenario(55 * 10);
    let (without_spill, not_spilled) = spill_scenario(usize::MAX);

    assert_eq!(spilled, 1);
    assert_eq!(not_spilled, 0);
    assert_eq!(with_spill.len(), 1001);
    assert_eq!(with_spill, without_spill);
}

#[test]
fn a_spill_job_names_its_file() {
    let mut frontier = Frontier::new(55, false, false, 5);
    frontier.add(Candidate::seed(5), 5);
    frontier.disable(&(0, 1));
    frontier.add(Candidate::seed(5), 5);
    assert_eq!(frontier.spills.len(), 1);
    frontier.add(Candidate::seed(5), 5);
    assert_eq!(frontier.spills.len(), 1);
    frontier.add(Candidate::seed(5), 5);

    assert_eq!(frontier.spills.len(), 2);
    assert_eq!(frontier.spills[0].filename, "scratch-files/candidates-with-0-wasted-symbols-and-1-permutations.dat.0");
    assert_eq!(frontier.spills[1].filename, "scratch-files/candidates-with-0-wasted-symbols-and-1-permutations.dat.1");
    assert_eq!(frontier.spills[0].bucket.len(), 2);
    assert_eq!(frontier.spills[1].bucket.len(), 2);
    assert_eq!(frontier.len(), 0);
}
