use rand::rngs::StdRng;
use rand::SeedableRng;
use sgd_layout::order::sweep_order;

#[test]
fn sweep_order_is_a_permutation() {
    let mut rng = StdRng::seed_from_u64(42);
    let order = sweep_order(10, &mut rng);
    assert_eq!(order.len(), 10);
    let mut sorted = order.clone();
    sorted.sort();
    assert_eq!(sorted, (0..10).collect::<Vec<usize>>());
}

#[test]
fn sweep_order_of_empty_and_singleton() {
    let mut rng = StdRng::seed_from_u64(7);
    assert!(sweep_order(0, &mut rng).is_empty());
    assert_eq!(sweep_order(1, &mut rng), vec![0]);
}

#[test]
fn sweep_order_actually_reorders() {
    // with this seed the 100-element shuffle does not return the identity,
    // so an order that came back unshuffled would fail here
    let mut rng = StdRng::seed_from_u64(42);
    let order = sweep_order(100, &mut rng);
    assert_ne!(order, (0..100).collect::<Vec<usize>>());
}

#[test]
fn sweep_order_is_reproducible_from_the_seed() {
    let mut rng1 = StdRng::seed_from_u64(12345);
    let mut rng2 = StdRng::seed_from_u64(12345);
    let a = sweep_order(100, &mut rng1);
    let b = sweep_order(100, &mut rng2);
    assert_eq!(a, b);
}
