use poisson_disk::config::MAX_OOB_RETRIES;
use poisson_disk::sampler::{
    bridson_next, bridson_start, cell_coords, dart_next, dart_start, fisher_yates, method_for,
    shuffled_cells, ActiveList, BridsonMove, DartMove, Method,
};
use rand::rngs::StdRng;
use rand::{Rng, SeedableRng};

#[test]
fn method_codes() {
    assert_eq!(method_for(1), Method::DartThrowing);
    assert_eq!(method_for(2), Method::Bridson);
    assert_eq!(method_for(0), Method::Bridson);
}

#[test]
fn fisher_yates_applies_swaps() {
    assert_eq!(fisher_yates(4, &vec![0, 0, 0]), vec![1, 2, 3, 0]);
    assert_eq!(fisher_yates(4, &vec![3, 2, 1]), vec![0, 1, 2, 3]);
    assert_eq!(fisher_yates(1, &vec![]), vec![0]);
    assert_eq!(fisher_yates(0, &vec![]), Vec::<usize>::new());
}

#[test]
fn shuffle_matches_plain_fisher_yates() {
    for seed in 0..5u64 {
        let total = 57;
        let mut rng = StdRng::seed_from_u64(seed);
        let got = shuffled_cells(total, &mut rng);

        let mut reference_rng = StdRng::seed_from_u64(seed);
        let mut order: Vec<usize> = (0..total).collect();
        for i in (1..total).rev() {
            let j = reference_rng.gen_range(0..=i);
            order.swap(i, j);
        }
        assert_eq!(got, order);
        // the generators are left in the same state
        assert_eq!(rng.gen::<u64>(), reference_rng.gen::<u64>());
    }
}

#[test]
fn shuffle_is_permutation() {
    let mut rng = StdRng::seed_from_u64(42);
    let mut order = shuffled_cells(1000, &mut rng);
    assert_ne!(order, (0..1000).collect::<Vec<usize>>());
    order.sort();
    assert_eq!(order, (0..1000).collect::<Vec<usize>>());
}

#[test]
fn active_list_operations() {
    let mut a = ActiveList::new();
    assert!(a.is_empty());
    a.push(10);
    a.push(11);
    a.push(12);
    assert_eq!(a.len(), 3);
    assert_eq!(a.retire(0), 10);
    assert_eq!(a.len(), 2);
    assert_eq!(a.point_at(0), 12);
    assert_eq!(a.point_at(1), 11);
    assert_eq!(a.retire(1), 11);
    assert_eq!(a.point_at(0), 12);
}

#[test]
fn active_list_pick_uses_generator() {
    let mut a = ActiveList::new();
    for i in 0..50 {
        a.push(i);
    }
    let mut rng = StdRng::seed_from_u64(7);
    let mut reference = StdRng::seed_from_u64(7);
    for _ in 0..20 {
        let slot = a.pick(&mut rng);
        assert_eq!(slot, reference.gen_range(0..50usize));
        assert!(slot < 50);
    }
}

#[test]
fn cell_coordinates() {
    assert_eq!(cell_coords(0, 4), (0, 0));
    assert_eq!(cell_coords(7, 4), (3, 1));
    assert_eq!(cell_coords(8, 4), (0, 2));
}

#[test]
fn dart_moves() {
    assert_eq!(dart_start(0), DartMove::NextCell);
    assert_eq!(dart_start(3), DartMove::Try { attempt: 0 });
    assert_eq!(dart_next(0, 3, true, true), DartMove::Accept);
    assert_eq!(dart_next(0, 3, false, false), DartMove::Try { attempt: 1 });
    assert_eq!(dart_next(1, 3, true, false), DartMove::Try { attempt: 2 });
    assert_eq!(dart_next(2, 3, true, false), DartMove::NextCell);
}

#[test]
fn bridson_moves() {
    assert_eq!(bridson_start(0), BridsonMove::Retire);
    assert_eq!(bridson_start(5), BridsonMove::Draw { attempt: 0, retry: 0 });
    assert_eq!(bridson_next(0, 0, 5, true, true), BridsonMove::Accept);
    // off-image candidates are redrawn without spending an attempt
    assert_eq!(bridson_next(2, 3, 5, false, false), BridsonMove::Draw { attempt: 2, retry: 4 });
    assert_eq!(
        bridson_next(2, MAX_OOB_RETRIES, 5, false, false),
        BridsonMove::Draw { attempt: 3, retry: 0 }
    );
    assert_eq!(bridson_next(2, 1, 5, true, false), BridsonMove::Draw { attempt: 3, retry: 0 });
    assert_eq!(bridson_next(4, 0, 5, true, false), BridsonMove::Retire);
    assert_eq!(bridson_next(4, MAX_OOB_RETRIES, 5, false, false), BridsonMove::Retire);
}
