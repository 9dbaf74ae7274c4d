use inlay_cache::cache::{InlayCache, InlayFetchOutcome, InlayFetchResult, QueryInlaysRange};
use inlay_cache::hints::{InlayHint, InlayHintKind, InlayHints, InlayId};

fn all_visible() -> InlayHints {
    InlayHints { show_type_hints: true, show_parameter_hints: true, show_other_hints: true }
}

fn type_hint(text: &str) -> InlayHint {
    InlayHint { kind: InlayHintKind::Type, text: String::from(text) }
}

fn parameter_hint(text: &str) -> InlayHint {
    InlayHint { kind: InlayHintKind::Parameter, text: String::from(text) }
}

fn fetched(
    buffer_id: u64,
    buffer_version: u64,
    excerpt_id: u64,
    hints: Vec<(usize, InlayHint)>,
) -> InlayFetchResult {
    InlayFetchResult {
        query: QueryInlaysRange {
            buffer_id,
            buffer_version,
            excerpt_id,
            excerpt_offset_range: (0, 100),
        },
        outcome: InlayFetchOutcome::Fetched(hints),
    }
}

#[test]
fn empty_cache_two_hints_inserted() {
    let mut cache = InlayCache::new(all_visible());
    let splice = cache.fetch_inlays(vec![fetched(
        1,
        1,
        1,
        vec![(5, type_hint("T1")), (10, type_hint("T2"))],
    )]);
    assert!(splice.to_remove.is_empty());
    assert_eq!(splice.to_insert.len(), 2);
    assert_eq!(splice.to_insert[0].1.offset, 5);
    assert_eq!(splice.to_insert[0].2.text, "T1");
    assert_eq!(splice.to_insert[1].1.offset, 10);
    assert_eq!(splice.to_insert[1].2.text, "T2");
    assert_ne!(splice.to_insert[0].0, splice.to_insert[1].0);
}

#[test]
fn unchanged_content_empty_splice() {
    let mut cache = InlayCache::new(all_visible());
    let first = cache.fetch_inlays(vec![fetched(1, 1, 1, vec![(5, type_hint("T1"))])]);
    assert_eq!(first.to_insert.len(), 1);
    let second = cache.fetch_inlays(vec![fetched(1, 2, 1, vec![(5, type_hint("T1"))])]);
    assert!(second.to_remove.is_empty());
    assert!(second.to_insert.is_empty());
}

#[test]
fn changed_content_removes_and_reinserts() {
    let mut cache = InlayCache::new(all_visible());
    let first = cache.fetch_inlays(vec![fetched(1, 1, 1, vec![(5, type_hint("T1"))])]);
    let first_id = first.to_insert[0].0;
    let second = cache.fetch_inlays(vec![fetched(1, 2, 1, vec![(5, type_hint("T2"))])]);
    assert_eq!(second.to_remove, vec![first_id]);
    assert_eq!(second.to_insert.len(), 1);
    assert_ne!(second.to_insert[0].0, first_id);
    assert_eq!(second.to_insert[0].1.offset, 5);
    assert_eq!(second.to_insert[0].2.text, "T2");
}

#[test]
fn absent_excerpt_of_present_buffer_untouched() {
    let mut cache = InlayCache::new(all_visible());
    let first = cache.fetch_inlays(vec![
        fetched(1, 1, 1, vec![(5, type_hint("T1"))]),
        fetched(1, 1, 2, vec![(7, parameter_hint("P1"))]),
    ]);
    assert_eq!(first.to_insert.len(), 2);
    let e2_id = first
        .to_insert
        .iter()
        .find(|t| t.1.offset == 7)
        .expect("hint of the second excerpt")
        .0;
    // A later batch mentions only the first excerpt of the buffer.
    let second = cache.fetch_inlays(vec![fetched(1, 2, 1, vec![(5, type_hint("T3"))])]);
    assert_eq!(second.to_remove.len(), 1);
    assert_eq!(second.to_insert.len(), 1);
    // The second excerpt's hint is still cached under its old id.
    let remaining = cache.clear();
    assert!(remaining.contains(&e2_id));
}

#[test]
fn hide_and_show_swap_kinds() {
    let only_types = InlayHints {
        show_type_hints: true,
        show_parameter_hints: false,
        show_other_hints: false,
    };
    let mut cache = InlayCache::new(only_types);
    let first = cache.fetch_inlays(vec![fetched(
        1,
        1,
        1,
        vec![(5, type_hint("T1")), (9, parameter_hint("P1"))],
    )]);
    // Only the type hint is exposed; the parameter hint is cached hidden.
    assert_eq!(first.to_insert.len(), 1);
    let type_id = first.to_insert[0].0;
    assert_eq!(first.to_insert[0].2.kind, InlayHintKind::Type);
    // Hide Type, show Parameter, with no fetch in between.
    let only_parameters = InlayHints {
        show_type_hints: false,
        show_parameter_hints: true,
        show_other_hints: false,
    };
    let splice = cache.apply_settings(only_parameters);
    assert_eq!(splice.to_remove, vec![type_id]);
    assert_eq!(splice.to_insert.len(), 1);
    assert_eq!(splice.to_insert[0].2.kind, InlayHintKind::Parameter);
    assert_eq!(splice.to_insert[0].1.offset, 9);
    assert_eq!(splice.to_insert[0].2.text, "P1");
}

#[test]
fn visibility_round_trip_restores_ids() {
    let all = all_visible();
    let mut cache = InlayCache::new(all);
    let first = cache.fetch_inlays(vec![fetched(
        1,
        1,
        1,
        vec![(5, type_hint("T1")), (9, parameter_hint("P1"))],
    )]);
    let type_id = first
        .to_insert
        .iter()
        .find(|t| t.2.kind == InlayHintKind::Type)
        .expect("type hint")
        .0;
    let no_types = InlayHints {
        show_type_hints: false,
        show_parameter_hints: true,
        show_other_hints: true,
    };
    let hide = cache.apply_settings(no_types);
    assert_eq!(hide.to_remove, vec![type_id]);
    assert!(hide.to_insert.is_empty());
    let show = cache.apply_settings(all);
    assert!(show.to_remove.is_empty());
    assert_eq!(show.to_insert.len(), 1);
    assert_eq!(show.to_insert[0].0, type_id);
    assert_eq!(show.to_insert[0].2.text, "T1");
}

#[test]
fn merging_same_batch_twice_is_idempotent() {
    let mut cache = InlayCache::new(all_visible());
    let batch = |cache: &mut InlayCache| {
        cache.fetch_inlays(vec![
            fetched(1, 1, 1, vec![(5, type_hint("T1")), (10, type_hint("T2"))]),
            fetched(2, 1, 7, vec![(3, parameter_hint("P1"))]),
        ])
    };
    let first = batch(&mut cache);
    assert_eq!(first.to_insert.len(), 3);
    let second = batch(&mut cache);
    assert!(second.to_remove.is_empty());
    assert!(second.to_insert.is_empty());
}

#[test]
fn stale_fetch_result_is_discarded() {
    let mut cache = InlayCache::new(all_visible());
    // The fetch at version 2 completes and merges first.
    let newer = cache.fetch_inlays(vec![fetched(1, 2, 1, vec![(5, type_hint("T2"))])]);
    assert_eq!(newer.to_insert.len(), 1);
    // A slower fetch at version 1 arrives afterwards: no change.
    let stale = cache.fetch_inlays(vec![fetched(1, 1, 1, vec![(5, type_hint("T1"))])]);
    assert!(stale.to_remove.is_empty());
    assert!(stale.to_insert.is_empty());
    // The newer content is still cached: refetching it changes nothing.
    let confirm = cache.fetch_inlays(vec![fetched(1, 3, 1, vec![(5, type_hint("T2"))])]);
    assert!(confirm.to_remove.is_empty());
    assert!(confirm.to_insert.is_empty());
}

#[test]
fn ids_are_not_reused_across_clears() {
    let mut cache = InlayCache::new(all_visible());
    let first = cache.fetch_inlays(vec![fetched(
        1,
        1,
        1,
        vec![(5, type_hint("T1")), (10, type_hint("T2"))],
    )]);
    let mut seen: Vec<InlayId> = first.to_insert.iter().map(|t| t.0).collect();
    let cleared = cache.clear();
    assert_eq!(cleared.len(), 2);
    let second = cache.fetch_inlays(vec![fetched(
        1,
        2,
        1,
        vec![(5, type_hint("T1")), (10, type_hint("T2"))],
    )]);
    for t in &second.to_insert {
        assert!(!seen.contains(&t.0));
        seen.push(t.0);
    }
    assert_eq!(second.to_insert.len(), 2);
}

#[test]
fn empty_fetch_removes_all_excerpt_hints() {
    let mut cache = InlayCache::new(all_visible());
    let first = cache.fetch_inlays(vec![fetched(
        1,
        1,
        1,
        vec![(5, type_hint("T1")), (10, type_hint("T2"))],
    )]);
    let mut ids: Vec<InlayId> = first.to_insert.iter().map(|t| t.0).collect();
    let second = cache.fetch_inlays(vec![fetched(1, 2, 1, Vec::new())]);
    let mut removed = second.to_remove.clone();
    ids.sort();
    removed.sort();
    assert_eq!(removed, ids);
    assert!(second.to_insert.is_empty());
}

#[test]
fn merge_join_is_minimal_across_positions() {
    let mut cache = InlayCache::new(all_visible());
    let first = cache.fetch_inlays(vec![fetched(
        1,
        1,
        1,
        vec![(5, type_hint("a")), (10, type_hint("b")), (15, type_hint("c"))],
    )]);
    let id_at = |splice: &inlay_cache::hints::InlaySplice, offset: usize| {
        splice
            .to_insert
            .iter()
            .find(|t| t.1.offset == offset)
            .expect("hint at offset")
            .0
    };
    let id_a = id_at(&first, 5);
    let id_c = id_at(&first, 15);
    let second = cache.fetch_inlays(vec![fetched(
        1,
        2,
        1,
        vec![(3, type_hint("x")), (10, type_hint("b")), (15, type_hint("d"))],
    )]);
    // The new hint at 3 and the changed hint at 15 enter fresh; the hints
    // at 5 and 15 leave; the unchanged hint at 10 is untouched.
    assert_eq!(second.to_remove, vec![id_a, id_c]);
    assert_eq!(second.to_insert.len(), 2);
    assert_eq!(second.to_insert[0].1.offset, 3);
    assert_eq!(second.to_insert[0].2.text, "x");
    assert_eq!(second.to_insert[1].1.offset, 15);
    assert_eq!(second.to_insert[1].2.text, "d");
}

#[test]
fn absent_buffer_is_purged() {
    let mut cache = InlayCache::new(all_visible());
    let first = cache.fetch_inlays(vec![
        fetched(1, 1, 1, vec![(5, type_hint("T1"))]),
        fetched(2, 1, 2, vec![(6, type_hint("T2"))]),
    ]);
    assert_eq!(first.to_insert.len(), 2);
    let b2_id = first
        .to_insert
        .iter()
        .find(|t| t.1.offset == 6)
        .expect("hint of the second buffer")
        .0;
    // The next batch covers only the first buffer: the second is purged.
    let second = cache.fetch_inlays(vec![fetched(1, 2, 1, vec![(5, type_hint("T1"))])]);
    assert_eq!(second.to_remove, vec![b2_id]);
    assert!(second.to_insert.is_empty());
}
