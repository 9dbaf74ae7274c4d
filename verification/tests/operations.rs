use inlay_cache::anchors::{Anchor, OrderedByAnchorOffset};
use inlay_cache::cache::{
    clamped_query_range, InlayCache, InlayFetchOutcome, InlayFetchResult, QueryInlaysRange,
};
use inlay_cache::hints::{
    allowed_inlay_hint_types, HintKindSet, InlayHint, InlayHintKind, InlayHints,
};

fn all_visible() -> InlayHints {
    InlayHints { show_type_hints: true, show_parameter_hints: true, show_other_hints: true }
}

fn hint(kind: InlayHintKind, text: &str) -> InlayHint {
    InlayHint { kind, text: String::from(text) }
}

fn query(buffer_id: u64, buffer_version: u64, excerpt_id: u64) -> QueryInlaysRange {
    QueryInlaysRange { buffer_id, buffer_version, excerpt_id, excerpt_offset_range: (0, 100) }
}

#[test]
fn add_keeps_ascending_offset_order() {
    let mut index: OrderedByAnchorOffset<u32> = OrderedByAnchorOffset::new();
    index.add(Anchor { offset: 10, timestamp: 1 }, 100);
    index.add(Anchor { offset: 5, timestamp: 1 }, 50);
    index.add(Anchor { offset: 7, timestamp: 1 }, 70);
    let elements = index.ordered_elements();
    let offsets: Vec<usize> = elements.iter().map(|(a, _)| a.offset).collect();
    assert_eq!(offsets, vec![5, 7, 10]);
}

#[test]
fn add_replaces_entry_with_equal_key() {
    let mut index: OrderedByAnchorOffset<u32> = OrderedByAnchorOffset::new();
    index.add(Anchor { offset: 5, timestamp: 1 }, 50);
    index.add(Anchor { offset: 5, timestamp: 1 }, 51);
    assert_eq!(index.len(), 1);
    assert_eq!(index.ordered_elements()[0].1, 51);
}

#[test]
fn same_offset_different_stamp_are_distinct_keys() {
    let mut index: OrderedByAnchorOffset<u32> = OrderedByAnchorOffset::new();
    index.add(Anchor { offset: 5, timestamp: 2 }, 52);
    index.add(Anchor { offset: 5, timestamp: 1 }, 51);
    assert_eq!(index.len(), 2);
    let elements = index.ordered_elements();
    assert_eq!(elements[0].0.timestamp, 1);
    assert_eq!(elements[1].0.timestamp, 2);
}

#[test]
fn hint_content_equality_compares_kind_and_text() {
    let a = hint(InlayHintKind::Type, "T1");
    let b = hint(InlayHintKind::Type, "T1");
    let c = hint(InlayHintKind::Parameter, "T1");
    let d = hint(InlayHintKind::Type, "T2");
    assert!(a.content_eq(&b));
    assert!(!a.content_eq(&c));
    assert!(!a.content_eq(&d));
}

#[test]
fn allowed_kinds_follow_the_three_flags() {
    let set: HintKindSet = allowed_inlay_hint_types(InlayHints {
        show_type_hints: true,
        show_parameter_hints: false,
        show_other_hints: true,
    });
    assert!(set.contains(InlayHintKind::Type));
    assert!(!set.contains(InlayHintKind::Parameter));
    assert!(set.contains(InlayHintKind::Other));
}

#[test]
fn clamped_range_respects_buffer_length() {
    assert_eq!(clamped_query_range(3, 120, 80), (3, 80));
    assert_eq!(clamped_query_range(3, 60, 80), (3, 60));
}

#[test]
fn up_to_date_needs_version_and_excerpt() {
    let mut cache = InlayCache::new(all_visible());
    assert!(!cache.inlays_up_to_date(1, 1, 1));
    let _ = cache.fetch_inlays(vec![InlayFetchResult {
        query: query(1, 2, 1),
        outcome: InlayFetchOutcome::Fetched(vec![(5, hint(InlayHintKind::Type, "T1"))]),
    }]);
    assert!(cache.inlays_up_to_date(1, 1, 1));
    assert!(cache.inlays_up_to_date(1, 2, 1));
    assert!(!cache.inlays_up_to_date(1, 3, 1));
    assert!(!cache.inlays_up_to_date(1, 1, 2));
    assert!(!cache.inlays_up_to_date(2, 1, 1));
}

#[test]
fn failed_query_is_excluded_without_affecting_others() {
    let mut cache = InlayCache::new(all_visible());
    let splice = cache.fetch_inlays(vec![
        InlayFetchResult {
            query: query(1, 1, 1),
            outcome: InlayFetchOutcome::Fetched(vec![(5, hint(InlayHintKind::Type, "T1"))]),
        },
        InlayFetchResult { query: query(1, 1, 2), outcome: InlayFetchOutcome::Failed },
    ]);
    assert_eq!(splice.to_insert.len(), 1);
    assert!(splice.to_remove.is_empty());
}

#[test]
fn all_failed_queries_leave_state_untouched() {
    let mut cache = InlayCache::new(all_visible());
    let populate = cache.fetch_inlays(vec![InlayFetchResult {
        query: query(1, 1, 1),
        outcome: InlayFetchOutcome::Fetched(vec![(5, hint(InlayHintKind::Type, "T1"))]),
    }]);
    assert_eq!(populate.to_insert.len(), 1);
    // An all-failed round groups an empty batch: nothing is purged.
    let splice = cache.fetch_inlays(vec![InlayFetchResult {
        query: query(2, 1, 1),
        outcome: InlayFetchOutcome::Failed,
    }]);
    assert!(splice.to_remove.is_empty());
    assert!(splice.to_insert.is_empty());
    assert!(cache.inlays_up_to_date(1, 1, 1));
}

#[test]
fn skipped_query_marks_no_change() {
    let mut cache = InlayCache::new(all_visible());
    let populate = cache.fetch_inlays(vec![InlayFetchResult {
        query: query(1, 1, 1),
        outcome: InlayFetchOutcome::Fetched(vec![(5, hint(InlayHintKind::Type, "T1"))]),
    }]);
    assert_eq!(populate.to_insert.len(), 1);
    // A skipped query keeps the buffer in the batch, so nothing is purged
    // and its excerpt is untouched.
    let splice = cache.fetch_inlays(vec![InlayFetchResult {
        query: query(1, 1, 1),
        outcome: InlayFetchOutcome::Skipped,
    }]);
    assert!(splice.to_remove.is_empty());
    assert!(splice.to_insert.is_empty());
    let remaining = cache.clear();
    assert_eq!(remaining.len(), 1);
}

#[test]
fn fetched_hints_are_sorted_before_the_merge() {
    let mut cache = InlayCache::new(all_visible());
    let splice = cache.fetch_inlays(vec![InlayFetchResult {
        query: query(1, 1, 1),
        outcome: InlayFetchOutcome::Fetched(vec![
            (10, hint(InlayHintKind::Type, "T2")),
            (5, hint(InlayHintKind::Type, "T1")),
        ]),
    }]);
    assert_eq!(splice.to_insert.len(), 2);
    assert_eq!(splice.to_insert[0].1.offset, 5);
    assert_eq!(splice.to_insert[1].1.offset, 10);
}

#[test]
fn clear_returns_every_id_and_keeps_settings() {
    let mut cache = InlayCache::new(all_visible());
    let populate = cache.fetch_inlays(vec![InlayFetchResult {
        query: query(1, 1, 1),
        outcome: InlayFetchOutcome::Fetched(vec![
            (5, hint(InlayHintKind::Type, "T1")),
            (10, hint(InlayHintKind::Parameter, "P1")),
        ]),
    }]);
    let mut inserted: Vec<_> = populate.to_insert.iter().map(|t| t.0).collect();
    let mut cleared = cache.clear();
    inserted.sort();
    cleared.sort();
    assert_eq!(cleared, inserted);
    assert!(!cache.inlays_up_to_date(1, 1, 1));
}

#[test]
fn hidden_hints_stay_cached() {
    let only_types = InlayHints {
        show_type_hints: true,
        show_parameter_hints: false,
        show_other_hints: false,
    };
    let mut cache = InlayCache::new(only_types);
    let splice = cache.fetch_inlays(vec![InlayFetchResult {
        query: query(1, 1, 1),
        outcome: InlayFetchOutcome::Fetched(vec![
            (5, hint(InlayHintKind::Type, "T1")),
            (9, hint(InlayHintKind::Parameter, "P1")),
            (12, hint(InlayHintKind::Other, "O1")),
        ]),
    }]);
    // Only the type hint is exposed, but all three are cached.
    assert_eq!(splice.to_insert.len(), 1);
    assert_eq!(cache.clear().len(), 3);
}
