use dataflow::exchange::{distribute, exchange, route, select, Pact};

#[test]
fn a_key_selects_its_remainder() {
    assert_eq!(select(0, 3), 0);
    assert_eq!(select(5, 3), 2);
    assert_eq!(select(9, 3), 0);
    assert_eq!(select(u64::MAX, 1), 0);
    assert_eq!(select(u64::MAX, 2), 1);
}

#[test]
fn distribute_keeps_the_order_within_each_target() {
    let keyed = vec![(4, 'a'), (1, 'b'), (7, 'c'), (3, 'd'), (10, 'e'), (0, 'f')];
    let out = distribute(keyed, 3);
    assert_eq!(out, vec![vec!['d', 'f'], vec!['a', 'b', 'c', 'e'], vec![]]);
}

#[test]
fn distribute_of_nothing_is_empty_batches() {
    let out: Vec<Vec<u8>> = distribute(vec![], 4);
    assert_eq!(out, vec![Vec::<u8>::new(); 4]);
}

#[test]
fn exchange_routes_by_the_partition_function() {
    let words = vec!["round".to_string(), "one".to_string(), "two".to_string(), "a".to_string()];
    let out = exchange(words, |w: &String| w.len() as u64, 2);
    assert_eq!(out[0], Vec::<String>::new());
    assert_eq!(out[1], vec!["round", "one", "two", "a"]);
    let numbers: Vec<u64> = (0..10).collect();
    let out = exchange(numbers, |x: &u64| *x, 3);
    assert_eq!(out, vec![vec![0, 3, 6, 9], vec![1, 4, 7], vec![2, 5, 8]]);
}

#[test]
fn exchange_delivers_the_same_records_whatever_the_interleaving() {
    let left: Vec<(u64, u64)> = vec![(1, 10), (2, 20), (4, 40)];
    let right: Vec<(u64, u64)> = vec![(5, 50), (3, 30)];
    let one: Vec<(u64, u64)> = vec![left[0], right[0], left[1], left[2], right[1]];
    let two: Vec<(u64, u64)> = vec![right[0], right[1], left[0], left[1], left[2]];
    let a = distribute(one, 3);
    let b = distribute(two, 3);
    for target in 0..3 {
        let mut x = a[target].clone();
        let mut y = b[target].clone();
        x.sort();
        y.sort();
        assert_eq!(x, y);
    }
    // Each source keeps its own order within a target.
    assert_eq!(a[1], vec![10, 40]);
    assert_eq!(b[1], vec![10, 40]);
    assert_eq!(a[2], vec![50, 20]);
    assert_eq!(b[2], vec![50, 20]);
}

#[test]
fn a_pipeline_moves_nothing() {
    let keyed = vec![(4, 'a'), (1, 'b'), (7, 'c')];
    assert_eq!(
        route(Pact::Pipeline, 1, keyed.clone(), 3),
        vec![vec![], vec!['a', 'b', 'c'], vec![]]
    );
    assert_eq!(route(Pact::Exchange, 1, keyed, 3), vec![vec![], vec!['a', 'b', 'c'], vec![]]);
    let keyed = vec![(0, 'a'), (1, 'b'), (2, 'c')];
    assert_eq!(
        route(Pact::Exchange, 0, keyed, 3),
        vec![vec!['a'], vec!['b'], vec!['c']]
    );
}

#[test]
fn every_record_arrives_once_however_many_targets_there_are() {
    let keyed: Vec<(u64, u64)> = (0..40).map(|x| (x * 7 % 11, x)).collect();
    for targets in 1..=8 {
        let out = distribute(keyed.clone(), targets);
        assert_eq!(out.len(), targets);
        let mut all: Vec<u64> = out.iter().flatten().copied().collect();
        all.sort();
        assert_eq!(all, (0..40).collect::<Vec<u64>>());
        // Records with the same key are together, at the target of the key.
        for (target, batch) in out.iter().enumerate() {
            for x in batch {
                assert_eq!(select(x * 7 % 11, targets), target);
            }
        }
    }
}
