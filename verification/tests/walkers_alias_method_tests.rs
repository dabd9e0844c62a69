use lyrian::walkers_alias_method::builder::WalkerTableBuilder;
use lyrian::walkers_alias_method::table::WalkerTable;

#[test]
fn make_table() {
    let index_weights = vec![2, 7, 9, 2, 4, 8, 1, 3, 6, 5];
    let mut builder = WalkerTableBuilder::new(index_weights);
    let w_table = builder.build();

    let expected = WalkerTable::new(
        vec![2, 1, 1, 2, 2, 2, 5, 9, 5, 8],
        vec![1269, 2209, 1081, 1269, 329, 235, 1739, 799, 47, 658],
        2209,
    );

    assert_eq!(w_table, expected)
}

#[test]
fn single_weight_always_returns_first_index() {
    let mut builder = WalkerTableBuilder::new(vec![7]);
    let w_table = builder.build();
    assert_eq!(w_table, WalkerTable::new(vec![0], vec![49], 49));
    for _ in 0..100 {
        assert_eq!(w_table.next(), 0);
    }
}

#[test]
fn select_follows_thresholds() {
    let mut builder = WalkerTableBuilder::new(vec![2, 7, 9, 2, 4, 8, 1, 3, 6, 5]);
    let w_table = builder.build();
    // Slot 0 aliases to index 2 below its threshold of 1269.
    assert_eq!(w_table.select(0, 1268), 2);
    assert_eq!(w_table.select(0, 1269), 0);
    // Slot 1 keeps all of its own weight.
    assert_eq!(w_table.select(1, 0), 1);
    assert_eq!(w_table.select(1, 2208), 1);
}

#[test]
fn draws_converge_to_weights() {
    let weights: Vec<u32> = vec![2, 7, 9, 2, 4, 8, 1, 3, 6, 5];
    let sum: u32 = weights.iter().sum();
    let mut builder = WalkerTableBuilder::new(weights.clone());
    let w_table = builder.build();

    let draws = 100_000;
    let mut counts = vec![0usize; weights.len()];
    for _ in 0..draws {
        let k = w_table.next();
        counts[k] += 1;
    }
    for i in 0..weights.len() {
        let observed = counts[i] as f64 / draws as f64;
        let expected = weights[i] as f64 / sum as f64;
        assert!(
            (observed - expected).abs() < 0.05,
            "index {}: observed {} expected {}",
            i,
            observed,
            expected
        );
    }
}

#[test]
fn equal_weights_draw_uniformly() {
    let weights: Vec<u32> = vec![5, 5, 5, 5];
    let mut builder = WalkerTableBuilder::new(weights.clone());
    let w_table = builder.build();

    let draws = 100_000;
    let mut counts = vec![0usize; weights.len()];
    for _ in 0..draws {
        counts[w_table.next()] += 1;
    }
    for i in 0..weights.len() {
        let observed = counts[i] as f64 / draws as f64;
        assert!(
            (observed - 0.25).abs() < 0.05,
            "index {}: observed {}",
            i,
            observed
        );
    }
}

#[test]
fn zero_weight_index_is_never_drawn() {
    let mut builder = WalkerTableBuilder::new(vec![2, 1, 7, 0]);
    let w_table = builder.build();
    for _ in 0..10_000 {
        assert_ne!(w_table.next(), 3);
    }
}
