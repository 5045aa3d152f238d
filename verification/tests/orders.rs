use apfsearch_core::order_validation::{is_order_of, RemainingSlots};
use apfsearch_core::ordered_merge::insert_sorted;
use apfsearch_core::ordered_page::select;
use apfsearch_core::slot_order::{SlotOrder, LEAF_LENGTH};
use apfsearch_core::slot_sort::{select_prefix, sort_slots};
use roaring::RoaringBitmap;
use std::cell::Cell;
use std::sync::Arc;

#[test]
fn exhaustive_small_merges_match_a_sorted_reference() {
    for old_mask in 0u32..128 {
        for new_mask in 0u32..128 {
            let mut old: Vec<u32> = (0..7).filter(|bit| old_mask & (1 << bit) != 0).collect();
            let new: Vec<u32> = (0..7).filter(|bit| new_mask & (1 << bit) != 0).collect();
            let mut expected = old.clone();
            expected.extend_from_slice(&new);
            expected.sort_unstable();
            insert_sorted(&mut old, &new, |a, b| a.cmp(&b));
            assert_eq!(old, expected, "{old_mask}, {new_mask}");
        }
    }
}

#[test]
fn descending_and_equal_keys_keep_their_order() {
    let mut slots = vec![9, 7, 5, 3, 1];
    insert_sorted(&mut slots, &[10, 8, 6, 4, 2, 0], |a, b| b.cmp(&a));
    assert_eq!(slots, (0..=10).rev().collect::<Vec<_>>());
    let mut slots = vec![10, 11, 20, 30];
    insert_sorted(&mut slots, &[12, 13, 21, 31], |a, b| (a / 10).cmp(&(b / 10)));
    assert_eq!(slots, vec![10, 11, 12, 13, 20, 21, 30, 31]);
}

#[test]
fn sparse_delta_does_not_compare_every_key() {
    let mut slots: Vec<u32> = (0..100_000).map(|slot| slot * 2).collect();
    let replacements: Vec<u32> = (0..33).map(|slot| slot * 6_000 + 1).collect();
    let comparisons = Cell::new(0);
    insert_sorted(&mut slots, &replacements, |a, b| {
        comparisons.set(comparisons.get() + 1);
        a.cmp(&b)
    });
    let comparisons = comparisons.get();
    assert!(comparisons < 2_000, "{comparisons} comparisons for 33 updates");
    assert!(slots.windows(2).all(|pair| pair[0] <= pair[1]));
    assert_eq!(slots.len(), 100_033);
}

#[test]
fn chunked_sort_cancels_without_changing_comparator_semantics() {
    let cancelled = Cell::new(false);
    let comparisons = Cell::new(0);
    let mut values: Vec<u32> = (0..100_000).rev().collect();
    let result = sort_slots(
        &mut values,
        |first, second| {
            comparisons.set(comparisons.get() + 1);
            if comparisons.get() == 3000 {
                cancelled.set(true);
            }
            first.cmp(&second)
        },
        || cancelled.get(),
    );
    assert_eq!(result.unwrap_err(), "Query cancelled");
    assert!(comparisons.get() < 5000);
}

#[test]
fn a_sort_that_is_not_cancelled_sorts() {
    let mut values: Vec<u32> = (0..20_000).map(|value| (value * 7919) % 20_011).collect();
    let mut expected = values.clone();
    expected.sort_unstable();
    sort_slots(&mut values, |a, b| a.cmp(&b), || false).unwrap();
    assert_eq!(values, expected);
}

#[test]
fn selected_prefix_matches_full_sort_for_adversarial_input_and_boundaries() {
    for length in [0usize, 1, 2, 1023, 1024, 1025, 4096, 11_011] {
        let patterns = [
            (0..length as u32).collect::<Vec<_>>(),
            (0..length as u32).rev().collect(),
            (0..length as u32)
                .map(|value| (value * 104729) % 97)
                .collect(),
            (0..length as u32)
                .map(|value| value.min(length as u32 - value))
                .collect(),
        ];
        for original in patterns {
            let mut reference = original.clone();
            reference.sort_unstable();
            for end in [
                0,
                1,
                length / 2,
                length.saturating_sub(1),
                length,
                length + 100,
            ] {
                let mut actual = original.clone();
                select_prefix(&mut actual, end, |a, b| a.cmp(&b), || false).unwrap();
                assert_eq!(
                    actual,
                    reference[..end.min(length)],
                    "length={length}, end={end}"
                );
            }
        }
    }
}

#[test]
fn a_cancelled_selection_says_so() {
    let mut values: Vec<u32> = (0..50_000).rev().collect();
    let result = select_prefix(&mut values, 10, |a, b| a.cmp(&b), || true);
    assert_eq!(result.unwrap_err(), "Query cancelled");
}

fn compare(live: &RoaringBitmap, order: impl IntoIterator<Item = u32>) {
    let mut actual = RemainingSlots::new(live);
    let mut expected: std::collections::HashSet<_> = live.iter().collect();
    for slot in order {
        assert_eq!(actual.consume(slot), expected.remove(&slot), "slot {slot}");
    }
    for slot in live {
        assert_eq!(actual.consume(slot), expected.remove(&slot));
        assert!(!actual.consume(slot));
    }
}

#[test]
fn matches_independent_set_for_all_small_subsets_and_repetitions() {
    for mask in 0..1u32 << 12 {
        let live: RoaringBitmap = (0..12).filter(|bit| mask & (1 << bit) != 0).collect();
        compare(&live, (0..14).rev().chain(0..14).chain([u32::MAX]));
    }
}

#[test]
fn validates_runs_crossing_word_and_container_boundaries() {
    let mut live: RoaringBitmap = (0..70_000).collect();
    for slot in [0, 1, 62, 63, 64, 65, 127, 128, 4095, 65535, 65536, 69_999] {
        live.remove(slot);
    }
    assert!(matches!(
        RemainingSlots::new(&live),
        RemainingSlots::Dense(_)
    ));
    // Coprime stride visits every slot in a non-monotonic order.
    compare(&live, (0..70_000).map(|index| index * 13 % 70_000));
    compare(&live, (0..70_001).rev());
}

#[test]
fn sparse_extreme_slots_do_not_allocate_a_dense_mask() {
    let live = RoaringBitmap::from([0, 63, 64, 65536, u32::MAX - 1, u32::MAX]);
    assert!(matches!(
        RemainingSlots::new(&live),
        RemainingSlots::Sparse(_)
    ));
    compare(&live, [u32::MAX, 0, u32::MAX, 65537, 64, 63, u32::MAX - 1]);
    compare(&RoaringBitmap::new(), [0, u32::MAX]);
}

#[test]
fn an_order_names_every_live_slot_once() {
    let live = RoaringBitmap::from([2, 5, 9]);
    assert!(is_order_of(&[9, 2, 5], &live));
    assert!(!is_order_of(&[9, 2], &live));
    assert!(!is_order_of(&[9, 2, 2], &live));
    assert!(!is_order_of(&[9, 2, 5, 6], &live));
    assert!(is_order_of(&[], &RoaringBitmap::new()));
}

#[test]
fn adaptive_membership_preserves_order_offsets_and_visibility() {
    let order: Vec<u32> = (0..4099).map(|i| i * 37 % 4099).collect();
    for matched in [
        RoaringBitmap::new(),
        [4080].into_iter().collect(),
        (0..4099).step_by(7).collect(),
        (0..4099).collect(),
    ] {
        for offset in [0, 1, 500, 4000, usize::MAX] {
            for limit in [0, 1, 200] {
                let expected: Vec<_> = order
                    .iter()
                    .copied()
                    .filter(|slot| matched.contains(*slot))
                    .skip(offset)
                    .take(limit)
                    .collect();
                assert_eq!(
                    select(&order, &matched, offset, limit, || false).unwrap(),
                    expected
                );
            }
        }
    }
    assert!(select(&order, &(0..4099).collect(), 0, 200, || true).is_err());
}

#[test]
fn repeated_leaf_splits_merges_and_empty_replacement_match_flat_order() {
    let mut reference: Vec<u32> = (0..18000).map(|n| n * 32).collect();
    let original = SlotOrder::from_values(reference.clone());
    let mut order = SlotOrder::from_values(reference.clone());
    let mut seed = 37u64;
    for round in 0..32u32 {
        let mut removed = Vec::new();
        for _ in 0..(round as usize * 91 + 1).min(reference.len()) {
            seed = seed.wrapping_mul(6364136223846793005).wrapping_add(1);
            removed.push(seed as usize % reference.len());
        }
        removed.sort_unstable();
        removed.dedup();
        let mut replacements: Vec<u32> = (0..1200)
            .map(|n| n * 64 + round + 1)
            .filter(|value| reference.binary_search(value).is_err())
            .collect();
        replacements.sort_unstable();
        let next = order.updated(&mut removed, &replacements, |a, b| a.cmp(&b));
        reference = reference
            .into_iter()
            .enumerate()
            .filter(|(rank, _)| removed.binary_search(rank).is_err())
            .map(|(_, value)| value)
            .chain(replacements)
            .collect();
        reference.sort_unstable();
        assert_eq!(next.to_vec(), reference);
        assert!(next.blocks.iter().all(|block| block.len() <= LEAF_LENGTH));
        order = next;
    }
    assert_eq!(original.len(), 18000);
    let empty = order.updated(&mut (0..order.len()).collect(), &[], |a, b| a.cmp(&b));
    assert_eq!(empty.len(), 0);
    assert_eq!(
        empty
            .updated(&mut vec![], &[0, 42, u32::MAX], |a, b| a.cmp(&b))
            .to_vec(),
        vec![0, 42, u32::MAX]
    );
}

#[test]
fn block_updates_share_unchanged_leaves_and_keep_rank_lookup_exact() {
    let original = SlotOrder::from_values((0..20000u32).map(|n| n * 2).collect::<Vec<_>>());
    let updated = original.updated(&mut vec![4100, 16000], &[8201, 32001, 40001], |a, b| {
        a.cmp(&b)
    });
    let expected: Vec<_> = (0..20000u32)
        .map(|n| n * 2)
        .filter(|v| *v != 8200 && *v != 32000)
        .chain([8201, 32001, 40001])
        .collect();
    let mut expected = expected;
    expected.sort_unstable();
    assert_eq!(updated.to_vec(), expected);
    assert!(Arc::ptr_eq(&updated.blocks[0], &original.blocks[0]));
    for (rank, &value) in expected.iter().enumerate() {
        assert_eq!(updated.get(rank), Some(&value));
        assert_eq!(updated.binary_search_by(|v| v.cmp(&value)), Ok(rank));
    }
    assert_eq!(original.len(), 20000);
    let mut page = Vec::new();
    updated.extend_range(&mut page, 4090, 8200);
    assert_eq!(page, expected[4090..8200]);
}
