use sllm_core::brain::{BrainError, CountMinSketch, CountTable, NgramBrain};

#[test]
fn test_basic_increment_and_estimate() {
    let mut cms = CountMinSketch::new(1024, 4);
    cms.increment(&"hello");
    cms.increment(&"hello");
    cms.increment(&"hello");
    cms.increment(&"world");

    assert!(cms.estimate(&"hello") >= 3);
    assert!(cms.estimate(&"world") >= 1);
    assert_eq!(cms.estimate(&"nonexistent"), 0);
}

#[test]
fn test_increment_by() {
    let mut cms = CountMinSketch::new(1024, 4);
    cms.increment_by(&42u64, 100);
    assert!(cms.estimate(&42u64) >= 100);
}

#[test]
fn test_clear() {
    let mut cms = CountMinSketch::new(256, 3);
    cms.increment(&"test");
    assert!(cms.estimate(&"test") > 0);
    cms.clear();
    assert_eq!(cms.estimate(&"test"), 0);
}

#[test]
fn test_memory_size() {
    let cms = CountMinSketch::new(1 << 20, 4);
    assert_eq!(cms.memory_bytes(), 4 * (1 << 20) * 4);
}

#[test]
fn test_token_pair_counting() {
    let mut cms = CountMinSketch::new(4096, 4);
    let pair: (u16, u16) = (100, 200);
    cms.increment(&pair);
    cms.increment(&pair);
    assert!(cms.estimate(&pair) >= 2);
}

#[test]
fn sketch_estimate_after_increment_by_is_exact_sum() {
    let mut cms = CountMinSketch::new(64, 2);
    let before = cms.estimate(&7u32);
    cms.increment_by(&7u32, 5);
    assert_eq!(cms.estimate(&7u32), before + 5);
    cms.increment_by(&7u32, u32::MAX);
    assert_eq!(cms.estimate(&7u32), u32::MAX);
}

#[test]
fn sketch_without_rows_estimates_max() {
    let mut cms = CountMinSketch::new(0, 0);
    cms.increment(&"x");
    assert_eq!(cms.estimate(&"x"), u32::MAX);
    assert_eq!(cms.memory_bytes(), 0);
}

#[test]
fn sketch_default_size() {
    let cms = CountMinSketch::default_size();
    assert_eq!(cms.width(), 1 << 20);
    assert_eq!(cms.depth(), 4);
    assert_eq!(cms.memory_bytes(), 16 * 1024 * 1024);
}

#[test]
fn sketch_string_keys_match_str_keys() {
    let mut cms = CountMinSketch::new(512, 3);
    cms.increment(&"same");
    assert_eq!(cms.estimate(&String::from("same")), cms.estimate(&"same"));
}

#[test]
fn sketch_counter_access() {
    let mut cms = CountMinSketch::new(8, 2);
    cms.set_counter(1, 3, 9);
    assert_eq!(cms.counter(1, 3), 9);
    assert_eq!(cms.counter(0, 3), 0);
}

#[test]
fn test_count_table_serialization_roundtrip() {
    let mut table = CountTable::new(3, 0);
    table.update(&[1, 2], 3);
    table.update(&[1, 2], 3);
    table.update(&[1, 2], 4);
    table.update(&[5, 6], 7);

    let bytes = table.to_bytes();
    let (restored, consumed) = CountTable::from_bytes(&bytes).unwrap();
    assert_eq!(consumed, bytes.len());
    assert_eq!(restored.order(), 3);
    assert_eq!(restored.total_entries(), table.total_entries());
}

#[test]
fn test_ngram_brain_serialization_roundtrip() {
    let mut brain = NgramBrain::new(0);
    brain.train_sequence(&[1, 2, 3, 4, 5, 6, 7, 8]);

    let bytes = brain.to_bytes();
    let (restored, _) = NgramBrain::from_bytes(&bytes).unwrap();
    assert_eq!(restored.tokens_trained(), brain.tokens_trained());
    assert_eq!(restored.total_associations(), brain.total_associations());
}

#[test]
fn test_count_table_basic() {
    let mut table = CountTable::new(2, 0);
    table.update(&[10], 20);
    table.update(&[10], 20);
    table.update(&[10], 30);
    let ranked = table.ranked_counts(&[10]);
    assert_eq!(ranked, vec![(20, 2), (30, 1)]);
    let total: u32 = ranked.iter().map(|x| x.1).sum();
    assert!((ranked[0].1 as f64 / total as f64 - 2.0 / 3.0).abs() < 1e-10);
}

#[test]
fn test_count_table_empty_context() {
    let table = CountTable::new(2, 0);
    assert!(table.ranked_counts(&[999]).is_empty());
    assert!(table.ranked_counts(&[1, 2]).is_empty());
}

#[test]
fn test_count_table_prune() {
    let mut table = CountTable::new(2, 0);
    table.update(&[10], 20);
    table.update(&[10], 30);
    table.update(&[10], 30);
    table.prune(2);
    assert_eq!(table.ranked_counts(&[10]), vec![(30, 2)]);
    assert_eq!(table.total_entries(), 1);
    table.prune(3);
    assert_eq!(table.num_contexts(), 0);
    assert_eq!(table.total_entries(), 0);
}

#[test]
fn count_table_counts_saturate() {
    let mut table = CountTable::new(2, 0);
    table.update(&[1], 2);
    assert_eq!(table.context_len(), 1);
    assert_eq!(table.total_entries(), 1);
    assert_eq!(table.num_contexts(), 1);
    table.update(&[1], 2);
    assert_eq!(table.total_entries(), 1);
}

#[test]
fn count_table_evicts_singletons_over_budget() {
    let mut table = CountTable::new(2, 2);
    table.update(&[1], 2);
    table.update(&[1], 2);
    table.update(&[1], 3);
    assert_eq!(table.total_entries(), 2);
    table.update(&[4], 5);
    // over budget: singletons pruned, the repeated pair stays
    assert_eq!(table.total_entries(), 1);
    assert_eq!(table.ranked_counts(&[1]), vec![(2, 2)]);
}

#[test]
fn count_table_bytes_layout() {
    let mut table = CountTable::new(2, 0);
    table.update(&[0x0102], 0x0304);
    let bytes = table.to_bytes();
    assert_eq!(
        bytes,
        vec![2, 1, 0, 0, 0, 0, 0, 0, 0, 0x02, 0x01, 1, 0, 0, 0, 0x04, 0x03, 1, 0, 0, 0]
    );
}

#[test]
fn count_table_from_bytes_truncated() {
    assert!(matches!(CountTable::from_bytes(&[]), Err(BrainError::TruncatedData)));
    assert!(matches!(CountTable::from_bytes(&[2, 1, 0, 0, 0, 0, 0, 0, 0]), Err(BrainError::TruncatedData)));
}

#[test]
fn count_table_from_bytes_later_entry_replaces_earlier() {
    // order 2, two contexts both [7]; the second one's counts win
    let bytes = vec![
        2, 2, 0, 0, 0, 0, 0, 0, 0, //
        7, 0, 1, 0, 0, 0, 1, 0, 5, 0, 0, 0, //
        7, 0, 1, 0, 0, 0, 2, 0, 6, 0, 0, 0,
    ];
    let (t, used) = CountTable::from_bytes(&bytes).unwrap();
    assert_eq!(used, bytes.len());
    assert_eq!(t.num_contexts(), 1);
    assert_eq!(t.total_entries(), 2);
    assert_eq!(t.ranked_counts(&[7]), vec![(2, 6)]);
}

#[test]
fn ngram_brain_trains_every_order() {
    let mut brain = NgramBrain::new(0);
    let tokens = vec![1, 2, 3, 4, 5, 1, 2, 3, 4, 5];
    brain.train_sequence(&tokens);
    assert!(brain.total_associations() > 0);
    assert_eq!(brain.tokens_trained(), 10);
    let tables = brain.tables();
    assert_eq!(tables.len(), 4);
    assert_eq!(tables[0].order(), 2);
    assert_eq!(tables[3].order(), 5);
    // 5 distinct bigrams, 5 distinct trigrams, ...
    assert_eq!(tables[0].total_entries(), 5);
    assert_eq!(tables[3].ranked_counts(&[1, 2, 3, 4]), vec![(5, 2)]);
    assert_eq!(brain.total_associations(), 5 + 5 + 5 + 5);
}

#[test]
fn ngram_brain_weights_and_prune() {
    let mut brain = NgramBrain::new(0);
    let bits = brain.weight_bits();
    assert_eq!(f64::from_bits(bits[0]), 0.05);
    assert_eq!(f64::from_bits(bits[3]), 0.50);
    brain.train_sequence(&[1, 2, 1, 3]);
    brain.prune_all(2);
    assert_eq!(brain.total_associations(), 0);
}

#[test]
fn ngram_brain_short_sequence_trains_nothing() {
    let mut brain = NgramBrain::new(0);
    brain.train_sequence(&[9]);
    assert_eq!(brain.total_associations(), 0);
    assert_eq!(brain.tokens_trained(), 1);
}

#[test]
fn ngram_brain_coverage_counts() {
    let mut brain = NgramBrain::new(0);
    brain.train_sequence(&[1, 2, 3, 4, 5, 6]);
    assert_eq!(brain.coverage_counts(&[1, 2, 3, 4, 5, 6]), (2, 2));
    assert_eq!(brain.coverage_counts(&[1, 2, 3, 4, 9]), (0, 1));
    assert_eq!(brain.coverage_counts(&[1, 2]), (0, 0));
    assert!(brain.predicts_token(&[8, 8, 8, 1], 2));
    assert!(!brain.predicts_token(&[1], 3));
}

#[test]
fn ngram_brain_from_bytes_truncated_and_accepts() {
    assert!(matches!(NgramBrain::from_bytes(&[]), Err(BrainError::TruncatedData)));
    assert!(NgramBrain::accepts(&[]));
    // one table of 9 bytes whose order byte is 1
    let mut bytes = vec![1u8];
    bytes.extend_from_slice(&0u64.to_le_bytes());
    bytes.extend_from_slice(&0u64.to_le_bytes());
    bytes.extend_from_slice(&9u64.to_le_bytes());
    bytes.extend_from_slice(&[1, 0, 0, 0, 0, 0, 0, 0, 0]);
    assert!(!NgramBrain::accepts(&bytes));
}

#[test]
fn count_table_update_counts_new_pairs_and_contexts() {
    let mut table = CountTable::new(2, 0);
    table.update(&[1], 2);
    assert_eq!((table.total_entries(), table.num_contexts()), (1, 1));
    table.update(&[1], 2);
    assert_eq!((table.total_entries(), table.num_contexts()), (1, 1));
    table.update(&[1], 3);
    assert_eq!((table.total_entries(), table.num_contexts()), (2, 1));
    table.update(&[4], 2);
    assert_eq!((table.total_entries(), table.num_contexts()), (3, 2));
    assert_eq!(table.ranked_counts(&[1]), vec![(2, 2), (3, 1)]);
}

#[test]
fn count_table_prune_is_idempotent_and_zero_keeps_all() {
    let mut table = CountTable::new(2, 0);
    for (c, t) in [(1u16, 2u16), (1, 2), (1, 3), (5, 6), (5, 6), (5, 6)] {
        table.update(&[c], t);
    }
    let before = table.to_bytes();
    table.prune(0);
    assert_eq!(table.to_bytes(), before);
    table.prune(2);
    let once = table.to_bytes();
    assert_eq!(table.total_entries(), 2);
    table.prune(2);
    assert_eq!(table.to_bytes(), once);
    table.prune(4);
    assert_eq!(table.num_contexts(), 0);
    assert_eq!(table.total_entries(), 0);
}

#[test]
fn count_table_every_strict_prefix_is_truncated() {
    let mut table = CountTable::new(3, 0);
    table.update(&[1, 2], 3);
    table.update(&[1, 2], 4);
    table.update(&[5, 6], 7);
    let bytes = table.to_bytes();
    for k in 0..bytes.len() {
        assert!(matches!(CountTable::from_bytes(&bytes[..k]), Err(BrainError::TruncatedData)));
    }
    assert!(CountTable::from_bytes(&bytes).is_ok());
}

#[test]
fn count_table_update_stays_within_budget() {
    let mut table = CountTable::new(2, 2);
    for t in 0..10u16 {
        table.update(&[1], t);
        assert!(table.total_entries() <= 2);
    }
}

#[test]
fn sketch_increment_raises_own_estimate_by_one_only() {
    let mut cms = CountMinSketch::new(16, 3);
    cms.increment(&"a");
    cms.increment(&"b");
    let (a0, b0) = (cms.estimate(&"a"), cms.estimate(&"b"));
    cms.increment(&"a");
    assert_eq!(cms.estimate(&"a"), a0 + 1);
    let b1 = cms.estimate(&"b");
    assert!(b0 <= b1 && b1 <= b0 + 1);
}

#[test]
fn sketches_with_the_same_calls_agree() {
    let mut a = CountMinSketch::new(32, 3);
    let mut b = CountMinSketch::new(32, 3);
    assert_eq!(a.estimate(&"k"), 0);
    for key in ["x", "y", "x", "z"] {
        a.increment(&key);
        b.increment(&key);
    }
    a.increment_by(&"y", 7);
    b.increment_by(&"y", 7);
    for key in ["x", "y", "z", "w"] {
        assert_eq!(a.estimate(&key), b.estimate(&key));
    }
}
