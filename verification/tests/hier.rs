use rustics::hier::{HierDescriptor, HierDimension, HierIndex, HierSet};
use rustics::window::Window;
use rustics::hier::{auto_advance_due, levels_to_advance, HierLevels, index_print_lines, index_title_text};

// The configuration from the hierarchy documentation: sum 1000 level 0
// instances into one level 1 instance, 100 level 1 instances into one
// level 2 instance, and start a new level 0 instance every 2000 samples.
#[test]
fn hier_descriptor_example() {
    let dimension_0 = HierDimension::new(1000, 1000);
    let dimension_1 = HierDimension::new(100, 200);
    let dimension_2 = HierDimension::new(0, 100);

    assert_eq!(dimension_0.period(), 1000);
    assert_eq!(dimension_1.retention(), 200);

    let dimensions   = vec![ dimension_0, dimension_1, dimension_2 ];
    let auto_advance = Some(2000);
    let descriptor   = HierDescriptor::new(dimensions, auto_advance);

    assert_eq!(descriptor.auto_next(), 2000);
    assert_eq!(descriptor.dimensions().len(), 3);

    // A new level 0 instance is due once 2000 samples are in.

    assert!(!auto_advance_due(descriptor.auto_next(), 0));
    assert!(!auto_advance_due(descriptor.auto_next(), 1999));
    assert!( auto_advance_due(descriptor.auto_next(), 2000));
    assert!( auto_advance_due(descriptor.auto_next(), 4000));
    assert!(!auto_advance_due(0, 4000));

    // Each 1000th level 0 instance completes a level 1 summary, and each
    // 100,000th also completes a level 2 summary.

    let dimensions = descriptor.dimensions();

    assert_eq!(levels_to_advance(dimensions, 1), Some(0));
    assert_eq!(levels_to_advance(dimensions, 999), Some(0));
    assert_eq!(levels_to_advance(dimensions, 1000), Some(1));
    assert_eq!(levels_to_advance(dimensions, 2000), Some(1));
    assert_eq!(levels_to_advance(dimensions, 100_000), Some(2));
    assert_eq!(levels_to_advance(dimensions, 200_000), Some(2));
}

#[test]
fn hier_descriptor_defaults() {
    let descriptor = HierDescriptor::new(vec![HierDimension::new(4, 8)], None);

    assert_eq!(descriptor.auto_next(), 0);

    // With a single level nothing is ever summed.

    assert_eq!(levels_to_advance(descriptor.dimensions(), 4), Some(0));
}

#[test]
fn hier_index_fields() {
    let index = HierIndex::new(HierSet::Live, 2, 7);

    assert!(index.set() == HierSet::Live);
    assert_eq!(index.level(), 2);
    assert_eq!(index.which(), 7);
}

// A zero period below the top is reached only once every lower level has
// a summary due.
#[test]
fn hier_zero_period() {
    let dimensions = vec![
        HierDimension::new(2, 2),
        HierDimension::new(0, 4),
        HierDimension::new(1, 1),
    ];

    assert_eq!(levels_to_advance(&dimensions, 1), Some(0));
    assert_eq!(levels_to_advance(&dimensions, 2), None);
    assert_eq!(levels_to_advance(&dimensions, 3), Some(0));
}

#[test]
fn hier_huge_periods() {
    let dimensions = vec![
        HierDimension::new(usize::MAX, usize::MAX),
        HierDimension::new(usize::MAX, usize::MAX),
        HierDimension::new(1, 1),
    ];

    assert_eq!(levels_to_advance(&dimensions, i64::MAX), Some(0));
}

// Two levels: level 0 keeps three members and sums two of them into a
// level 1 summary; a new level 0 member is due every two samples.
#[test]
fn hier_levels_advance() {
    let dimensions = vec![HierDimension::new(2, 3), HierDimension::new(0, 2)];
    let descriptor = HierDescriptor::new(dimensions, Some(2));
    let mut levels: HierLevels<u64> = HierLevels::new(&descriptor, 100);

    assert_eq!(levels.level_count(), 2);
    assert_eq!(*levels.current(), 100);
    assert_eq!(levels.event_count(), 0);
    assert_eq!(levels.advance_count(), 0);

    assert!(!levels.note_event());
    assert!(!levels.note_event());
    assert!( levels.note_event());
    assert_eq!(levels.event_count(), 3);

    assert_eq!(levels.start_advance(), 0);
    levels.push_current(101);
    assert_eq!(*levels.current(), 101);

    assert_eq!(levels.start_advance(), 1);
    levels.push_summary(1, 201);
    levels.push_current(102);
    levels.push_current(103);
    assert_eq!(levels.advance_count(), 2);

    // Level 0 holds its three newest members; the live ones are the
    // newest two.

    assert_eq!(levels.level(0).all_len(), 3);
    assert_eq!(levels.index(HierIndex::new(HierSet::All, 0, 0)), Some(&101));
    assert_eq!(levels.index(HierIndex::new(HierSet::All, 0, 2)), Some(&103));
    assert_eq!(levels.index(HierIndex::new(HierSet::Live, 0, 0)), Some(&102));
    assert_eq!(levels.index(HierIndex::new(HierSet::Live, 0, 2)), None);
    assert_eq!(levels.index(HierIndex::new(HierSet::All, 1, 0)), Some(&201));
    assert_eq!(levels.index(HierIndex::new(HierSet::All, 1, 1)), None);
    assert_eq!(levels.index(HierIndex::new(HierSet::All, 2, 0)), None);

    levels.clear_all(500);

    assert_eq!(*levels.current(), 500);
    assert_eq!(levels.event_count(), 0);
    assert_eq!(levels.advance_count(), 0);
    assert_eq!(levels.level(0).all_len(), 1);
    assert_eq!(levels.level(1).all_len(), 0);
    assert_eq!(levels.dimensions().len(), 2);
}

#[test]
fn hier_index_print_lines() {
    let index = HierIndex::new(HierSet::Live, 4, 2);
    let lines = index_print_lines("Latency", index, 3, false);

    assert_eq!(lines, vec![
        "Latency[4].live[2]".to_string(),
        "  That level (4) is invalid (3 levels configured).".to_string(),
    ]);

    let index = HierIndex::new(HierSet::All, 1, 17);
    let lines = index_print_lines("Latency", index, 3, false);

    assert_eq!(lines, vec![
        "Latency[1].all[17]".to_string(),
        "  That index (17) is out of bounds.".to_string(),
    ]);

    assert!(index_print_lines("Latency", index, 3, true).is_empty());
    assert_eq!(index_title_text("Latency", index), "Latency[1].all[17]");
}

// After k complete advances, level 0 holds min(k + 1, retention) members
// and a level above it min(k / P, retention), P being the product of the
// periods below it.
#[test]
fn hier_levels_counts_after_advances() {
    let dimensions = vec![HierDimension::new(2, 3), HierDimension::new(3, 4), HierDimension::new(0, 2)];
    let descriptor = HierDescriptor::new(dimensions, None);
    let mut levels: HierLevels<u64> = HierLevels::new(&descriptor, 0);
    let retention  = [3, 4, 2];
    let product    = [1, 2, 6];

    for k in 1..=40u64 {
        let due = levels.start_advance();

        for level in 1..=due {
            levels.push_summary(level, k);
        }

        levels.push_current(k);

        assert_eq!(levels.level(0).all_len(), std::cmp::min(k as usize + 1, retention[0]));

        for l in 1..3 {
            assert_eq!(levels.level(l).all_len(), std::cmp::min(k as usize / product[l], retention[l]));
        }
    }
}

// A complete advance sums each due level into the level above and then
// starts a new current member.
#[test]
fn hier_levels_complete_advance() {
    let dimensions = vec![HierDimension::new(2, 4), HierDimension::new(0, 3)];
    let descriptor = HierDescriptor::new(dimensions, None);
    let mut levels: HierLevels<u64> = HierLevels::new(&descriptor, 1);

    let sum_live = |level: &Window<u64>| -> u64 {
        let mut scan = level.iter_live();
        let mut sum  = 0;

        while let Some(value) = scan.next() {
            sum += *value;
        }

        sum
    };

    assert_eq!(levels.advance(sum_live, || 2), 0);
    assert_eq!(levels.advance(sum_live, || 3), 1);

    // The summary of level 0's live members 1 and 2 went to level 1.

    assert_eq!(levels.index(HierIndex::new(HierSet::All, 1, 0)), Some(&3));
    assert_eq!(*levels.current(), 3);
    assert_eq!(levels.advance_count(), 2);
    assert_eq!(levels.level(0).all_len(), 3);
}

// A count of zero is a multiple of every product, and a negative count is
// a multiple exactly when its magnitude is.
#[test]
fn hier_levels_to_advance_any_count() {
    let dimensions = vec![
        HierDimension::new(2, 2),
        HierDimension::new(3, 3),
        HierDimension::new(1, 1),
    ];

    assert_eq!(levels_to_advance(&dimensions, 0), Some(2));
    assert_eq!(levels_to_advance(&dimensions, -4), Some(1));
    assert_eq!(levels_to_advance(&dimensions, -6), Some(2));
    assert_eq!(levels_to_advance(&dimensions, -7), Some(0));
    assert_eq!(levels_to_advance(&dimensions, i64::MIN), Some(1));

    let zero_period = vec![HierDimension::new(2, 2), HierDimension::new(0, 4), HierDimension::new(1, 1)];

    assert_eq!(levels_to_advance(&zero_period, 0), None);
}
