//! The guarantees the cache gives, stated and proved over the
//! mathematical reconciliation functions of [`crate::merge`] and
//! [`crate::cache`].

use vstd::prelude::*;
use crate::anchors::Anchor;
use crate::hints::{HintKindSet, InlayHint, InlayId};
use crate::merge::{lemma_merge_next_bound, merge_seqs};
use crate::cache::{
    assoc_contains, assoc_idx, entry_ids, lemma_assoc_idx, lemma_assoc_idx_keys_eq,
    lemma_assoc_idx_push, lemma_assoc_idx_unique, merge_batch, merge_batch_buffers,
    merge_buffer_excerpts, merge_one_buffer, merge_one_excerpt, purge_buffers, settings_buffers,
    settings_entries, settings_excerpts, BatchModel, BatchStep, BufferModel, CacheModel,
    filter_inserts,
};

verus! {

/// The set of no hint kinds.
pub open spec fn no_kinds() -> HintKindSet {
    HintKindSet { types: false, parameters: false, others: false }
}

/// Monotonic ids: a merge never moves the allocator backward, every id it
/// schedules for insertion is fresh (at least the allocator's value before
/// the merge, below its value after), every id it schedules for removal
/// was already cached in the excerpt, and every entry it leaves behind
/// carries either an id the excerpt already held or a fresh one.  Since
/// the allocator starts past every id ever issued and only advances — and
/// `clear` does not reset it — no id is ever issued twice.
pub proof fn lemma_merge_fresh_ids(
    cached: Seq<(Anchor, (InlayId, InlayHint))>,
    fetched: Seq<(Anchor, InlayHint)>,
    next: nat,
)
    requires
        next + fetched.len() <= usize::MAX,
    ensures
        next <= merge_seqs(cached, fetched, next).next_id,
        forall|t: int|
            0 <= t < merge_seqs(cached, fetched, next).to_insert.len() ==> next <= (
            #[trigger] merge_seqs(cached, fetched, next).to_insert[t]).0.0 < merge_seqs(
                cached,
                fetched,
                next,
            ).next_id,
        forall|t: int|
            0 <= t < merge_seqs(cached, fetched, next).to_remove.len() ==> entry_ids(
                cached,
            ).contains(#[trigger] merge_seqs(cached, fetched, next).to_remove[t]),
        forall|t: int|
            0 <= t < merge_seqs(cached, fetched, next).entries.len() ==> cached.contains(
                #[trigger] merge_seqs(cached, fetched, next).entries[t],
            ) || next <= merge_seqs(cached, fetched, next).entries[t].1.0.0 < merge_seqs(
                cached,
                fetched,
                next,
            ).next_id,
    decreases cached.len() + fetched.len(),
{
    let m = merge_seqs(cached, fetched, next);
    lemma_merge_next_bound(cached, fetched, next);
    if cached.len() == 0 && fetched.len() == 0 {
    } else if cached.len() == 0 {
        lemma_merge_fresh_ids(cached, fetched.skip(1), next + 1);
        lemma_merge_next_bound(cached, fetched.skip(1), next + 1);
        let m1 = merge_seqs(cached, fetched.skip(1), next + 1);
        assert forall|t: int| 0 <= t < m.to_remove.len() implies entry_ids(cached).contains(
            #[trigger] m.to_remove[t],
        ) by {
            assert(m.to_remove[t] == m1.to_remove[t]);
        }
        assert forall|t: int| 0 <= t < m.to_insert.len() implies next <= (
        #[trigger] m.to_insert[t]).0.0 < m.next_id by {
            if t > 0 {
                assert(m.to_insert[t] == m1.to_insert[t - 1]);
            } else {
                assert(m.to_insert[0].0.0 == next);
            }
        }
        assert forall|t: int| 0 <= t < m.entries.len() implies cached.contains(
            #[trigger] m.entries[t],
        ) || next <= m.entries[t].1.0.0 < m.next_id by {
            if t > 0 {
                assert(m.entries[t] == m1.entries[t - 1]);
            } else {
                assert(m.entries[0].1.0.0 == next);
            }
        }
    } else if fetched.len() == 0 {
        lemma_merge_fresh_ids(cached.skip(1), fetched, next);
        assert forall|t: int| 0 <= t < m.to_remove.len() implies entry_ids(cached).contains(
            #[trigger] m.to_remove[t],
        ) by {
            if t == 0 {
                assert(entry_ids(cached)[0] == cached[0].1.0);
            } else {
                let m1 = merge_seqs(cached.skip(1), fetched, next);
                let u = choose|u: int|
                    0 <= u < entry_ids(cached.skip(1)).len() && entry_ids(cached.skip(1))[u]
                        == m1.to_remove[t - 1];
                assert(entry_ids(cached)[u + 1] == entry_ids(cached.skip(1))[u]);
            }
        }
    } else if fetched[0].0.offset < cached[0].0.offset {
        lemma_merge_fresh_ids(cached, fetched.skip(1), next + 1);
        lemma_merge_next_bound(cached, fetched.skip(1), next + 1);
        let m1 = merge_seqs(cached, fetched.skip(1), next + 1);
        assert forall|t: int| 0 <= t < m.to_remove.len() implies entry_ids(cached).contains(
            #[trigger] m.to_remove[t],
        ) by {
            assert(m.to_remove[t] == m1.to_remove[t]);
        }
        assert forall|t: int| 0 <= t < m.to_insert.len() implies next <= (
        #[trigger] m.to_insert[t]).0.0 < m.next_id by {
            if t > 0 {
                assert(m.to_insert[t] == m1.to_insert[t - 1]);
            } else {
                assert(m.to_insert[0].0.0 == next);
            }
        }
        assert forall|t: int| 0 <= t < m.entries.len() implies cached.contains(
            #[trigger] m.entries[t],
        ) || next <= m.entries[t].1.0.0 < m.next_id by {
            if t > 0 {
                assert(m.entries[t] == m1.entries[t - 1]);
            } else {
                assert(m.entries[0].1.0.0 == next);
            }
        }
    } else if fetched[0].0.offset == cached[0].0.offset {
        if fetched[0].1@ == cached[0].1.1@ {
            lemma_merge_fresh_ids(cached.skip(1), fetched.skip(1), next);
            let m1 = merge_seqs(cached.skip(1), fetched.skip(1), next);
            assert forall|t: int| 0 <= t < m.to_remove.len() implies entry_ids(cached).contains(
                #[trigger] m.to_remove[t],
            ) by {
                assert(m.to_remove[t] == m1.to_remove[t]);
                let u = choose|u: int|
                    0 <= u < entry_ids(cached.skip(1)).len() && entry_ids(cached.skip(1))[u]
                        == m1.to_remove[t];
                assert(entry_ids(cached)[u + 1] == entry_ids(cached.skip(1))[u]);
            }
            assert forall|t: int| 0 <= t < m.entries.len() implies cached.contains(
                #[trigger] m.entries[t],
            ) || next <= m.entries[t].1.0.0 < m.next_id by {
                if t == 0 {
                    assert(cached[0] == m.entries[0]);
                } else {
                    assert(m.entries[t] == m1.entries[t - 1]);
                    if cached.skip(1).contains(m1.entries[t - 1]) {
                        let u = choose|u: int|
                            0 <= u < cached.skip(1).len() && cached.skip(1)[u] == m1.entries[t - 1];
                        assert(cached[u + 1] == m.entries[t]);
                    }
                }
            }
        } else {
            lemma_merge_fresh_ids(cached.skip(1), fetched.skip(1), next + 1);
            lemma_merge_next_bound(cached.skip(1), fetched.skip(1), next + 1);
            let m1 = merge_seqs(cached.skip(1), fetched.skip(1), next + 1);
            assert forall|t: int| 0 <= t < m.to_remove.len() implies entry_ids(cached).contains(
                #[trigger] m.to_remove[t],
            ) by {
                if t == 0 {
                    assert(entry_ids(cached)[0] == cached[0].1.0);
                } else {
                    let u = choose|u: int|
                        0 <= u < entry_ids(cached.skip(1)).len() && entry_ids(cached.skip(1))[u]
                            == m1.to_remove[t - 1];
                    assert(entry_ids(cached)[u + 1] == entry_ids(cached.skip(1))[u]);
                }
            }
            assert forall|t: int| 0 <= t < m.to_insert.len() implies next <= (
            #[trigger] m.to_insert[t]).0.0 < m.next_id by {
                if t > 0 {
                    assert(m.to_insert[t] == m1.to_insert[t - 1]);
                } else {
                    assert(m.to_insert[0].0.0 == next);
                }
            }
            assert forall|t: int| 0 <= t < m.entries.len() implies cached.contains(
                #[trigger] m.entries[t],
            ) || next <= m.entries[t].1.0.0 < m.next_id by {
                if t == 0 {
                    assert(m.entries[0].1.0.0 == next);
                } else {
                    assert(m.entries[t] == m1.entries[t - 1]);
                    if cached.skip(1).contains(m1.entries[t - 1]) {
                        let u = choose|u: int|
                            0 <= u < cached.skip(1).len() && cached.skip(1)[u] == m1.entries[t - 1];
                        assert(cached[u + 1] == m.entries[t]);
                    }
                }
            }
        }
    } else {
        lemma_merge_fresh_ids(cached.skip(1), fetched, next);
        let m1 = merge_seqs(cached.skip(1), fetched, next);
        assert forall|t: int| 0 <= t < m.to_remove.len() implies entry_ids(cached).contains(
            #[trigger] m.to_remove[t],
        ) by {
            if t == 0 {
                assert(entry_ids(cached)[0] == cached[0].1.0);
            } else {
                let u = choose|u: int|
                    0 <= u < entry_ids(cached.skip(1)).len() && entry_ids(cached.skip(1))[u]
                        == m1.to_remove[t - 1];
                assert(entry_ids(cached)[u + 1] == entry_ids(cached.skip(1))[u]);
            }
        }
        assert forall|t: int| 0 <= t < m.entries.len() implies cached.contains(
            #[trigger] m.entries[t],
        ) || next <= m.entries[t].1.0.0 < m.next_id by {
            if cached.skip(1).contains(m1.entries[t]) {
                let u = choose|u: int|
                    0 <= u < cached.skip(1).len() && cached.skip(1)[u] == m1.entries[t];
                assert(cached[u + 1] == m.entries[t]);
            }
        }
    }
}

/// Content-stability, whole excerpt: a fetch that reproduces exactly the
/// offsets and contents the excerpt already caches retains every entry
/// unchanged — same ids, nothing scheduled for removal or insertion.
pub proof fn lemma_merge_unchanged(
    cached: Seq<(Anchor, (InlayId, InlayHint))>,
    fetched: Seq<(Anchor, InlayHint)>,
    next: nat,
)
    requires
        fetched.len() == cached.len(),
        forall|i: int|
            0 <= i < cached.len() ==> (#[trigger] fetched[i]).0.offset == cached[i].0.offset
                && fetched[i].1@ == cached[i].1.1@,
    ensures
        merge_seqs(cached, fetched, next).entries == cached,
        merge_seqs(cached, fetched, next).to_remove.len() == 0,
        merge_seqs(cached, fetched, next).to_insert.len() == 0,
        merge_seqs(cached, fetched, next).next_id == next,
    decreases cached.len(),
{
    if cached.len() == 0 {
        assert(merge_seqs(cached, fetched, next).entries =~= cached);
    } else {
        assert(forall|i: int|
            0 <= i < cached.skip(1).len() ==> #[trigger] cached.skip(1)[i] == cached[i + 1]);
        assert(forall|i: int|
            0 <= i < fetched.skip(1).len() ==> #[trigger] fetched.skip(1)[i] == fetched[i + 1]);
        lemma_merge_unchanged(cached.skip(1), fetched.skip(1), next);
        assert(merge_seqs(cached, fetched, next).entries =~= cached);
    }
}

/// Content-stability, single hint: when the cached and the fetched hints
/// of an excerpt are each strictly ascending by offset, a cached hint
/// whose offset and content the fetch reproduces survives the merge as
/// the very same entry — same id, same anchor, same content.
pub proof fn lemma_content_stable(
    cached: Seq<(Anchor, (InlayId, InlayHint))>,
    fetched: Seq<(Anchor, InlayHint)>,
    next: nat,
    i: int,
    j: int,
)
    requires
        forall|a: int, b: int|
            0 <= a < b < cached.len() ==> (#[trigger] cached[a]).0.offset < (
            #[trigger] cached[b]).0.offset,
        forall|a: int, b: int|
            0 <= a < b < fetched.len() ==> (#[trigger] fetched[a]).0.offset < (
            #[trigger] fetched[b]).0.offset,
        0 <= i < cached.len(),
        0 <= j < fetched.len(),
        cached[i].0.offset == fetched[j].0.offset,
        cached[i].1.1@ == fetched[j].1@,
    ensures
        merge_seqs(cached, fetched, next).entries.contains(cached[i]),
    decreases cached.len() + fetched.len(),
{
    let m = merge_seqs(cached, fetched, next);
    assert(forall|a: int|
        0 <= a < cached.skip(1).len() ==> #[trigger] cached.skip(1)[a] == cached[a + 1]);
    assert(forall|a: int|
        0 <= a < fetched.skip(1).len() ==> #[trigger] fetched.skip(1)[a] == fetched[a + 1]);
    if fetched[0].0.offset < cached[0].0.offset {
        // fetched[j] aligns with a cached entry, so j > 0 here.
        assert(fetched[j].0.offset == cached[i].0.offset >= cached[0].0.offset);
        assert(j > 0);
        lemma_content_stable(cached, fetched.skip(1), next + 1, i, j - 1);
        let m1 = merge_seqs(cached, fetched.skip(1), next + 1);
        let u = choose|u: int| 0 <= u < m1.entries.len() && m1.entries[u] == cached[i];
        assert(m.entries[u + 1] == cached[i]);
    } else if fetched[0].0.offset == cached[0].0.offset {
        if i == 0 {
            // Offsets are unique on both sides, so j == 0 as well.
            assert(j == 0);
            assert(m.entries[0] == cached[0]);
        } else {
            assert(i > 0);
            assert(cached[i].0.offset > cached[0].0.offset);
            assert(fetched[j].0.offset > fetched[0].0.offset);
            assert(j > 0);
            if fetched[0].1@ == cached[0].1.1@ {
                lemma_content_stable(cached.skip(1), fetched.skip(1), next, i - 1, j - 1);
                let m1 = merge_seqs(cached.skip(1), fetched.skip(1), next);
                let u = choose|u: int| 0 <= u < m1.entries.len() && m1.entries[u] == cached[i];
                assert(m.entries[u + 1] == cached[i]);
            } else {
                lemma_content_stable(cached.skip(1), fetched.skip(1), next + 1, i - 1, j - 1);
                let m1 = merge_seqs(cached.skip(1), fetched.skip(1), next + 1);
                let u = choose|u: int| 0 <= u < m1.entries.len() && m1.entries[u] == cached[i];
                assert(m.entries[u + 1] == cached[i]);
            }
        }
    } else {
        // cached[0] precedes every fetched hint, so i > 0 here.
        assert(cached[i].0.offset == fetched[j].0.offset >= fetched[0].0.offset);
        assert(i > 0);
        lemma_content_stable(cached.skip(1), fetched, next, i - 1, j);
        let m1 = merge_seqs(cached.skip(1), fetched, next);
        let u = choose|u: int| 0 <= u < m1.entries.len() && m1.entries[u] == cached[i];
        assert(m.entries[u] == cached[i]);
    }
}

/// Staleness guard: a fetch result for an excerpt the store already
/// covers — recorded version at or past the fetch's version, index
/// present — changes nothing and schedules nothing.  So when a fetch at a
/// newer version merges first, a slower fetch at an older version that
/// completes later is discarded for that excerpt.
pub proof fn lemma_stale_fetch_discarded(
    bm: BufferModel,
    next: nat,
    batch_version: u64,
    excerpt_id: u64,
    fetch: Option<Seq<(Anchor, InlayHint)>>,
)
    requires
        bm.version >= batch_version,
        assoc_contains(bm.excerpts, excerpt_id),
    ensures
        merge_one_excerpt(bm, next, batch_version, excerpt_id, fetch).buffer == bm,
        merge_one_excerpt(bm, next, batch_version, excerpt_id, fetch).next_id == next,
        merge_one_excerpt(bm, next, batch_version, excerpt_id, fetch).to_remove.len() == 0,
        merge_one_excerpt(bm, next, batch_version, excerpt_id, fetch).to_insert.len() == 0,
{
}

/// After a fetched excerpt merges, the store records at least the batch's
/// version and holds an index for that excerpt: any later-arriving fetch
/// of it at that or an older version will be discarded.
pub proof fn lemma_merge_records_excerpt(
    bm: BufferModel,
    next: nat,
    batch_version: u64,
    excerpt_id: u64,
    raw: Seq<(Anchor, InlayHint)>,
)
    ensures
        merge_one_excerpt(bm, next, batch_version, excerpt_id, Some(raw)).buffer.version
            >= batch_version,
        assoc_contains(
            merge_one_excerpt(bm, next, batch_version, excerpt_id, Some(raw)).buffer.excerpts,
            excerpt_id,
        ),
{
    let step = merge_one_excerpt(bm, next, batch_version, excerpt_id, Some(raw));
    if bm.version >= batch_version && assoc_contains(bm.excerpts, excerpt_id) {
    } else {
        let i = assoc_idx(bm.excerpts, excerpt_id);
        lemma_assoc_idx(bm.excerpts, excerpt_id);
        if assoc_contains(bm.excerpts, excerpt_id) {
            assert(step.buffer.excerpts[i].0 == excerpt_id);
        } else {
            assert(step.buffer.excerpts[bm.excerpts.len() as int].0 == excerpt_id);
        }
    }
}

/// Visibility round-trip: over any cache content, hiding a set of kinds
/// schedules exactly the ids of the hints of those kinds for removal and
/// inserts nothing; re-showing the same kinds with no intervening fetch
/// removes nothing and re-inserts exactly those hints, under the very
/// ids that were removed — no re-fetch, no new ids.
pub proof fn lemma_visibility_round_trip(bufs: Seq<(u64, BufferModel)>, kinds: HintKindSet)
    ensures
        settings_buffers(bufs, kinds, no_kinds()).to_insert.len() == 0,
        settings_buffers(bufs, no_kinds(), kinds).to_remove.len() == 0,
        settings_buffers(bufs, no_kinds(), kinds).to_insert.map_values(
            |t: (InlayId, Anchor, InlayHint)| t.0,
        ) == settings_buffers(bufs, kinds, no_kinds()).to_remove,
    decreases bufs.len(),
{
    if bufs.len() == 0 {
        assert(settings_buffers(bufs, no_kinds(), kinds).to_insert.map_values(
            |t: (InlayId, Anchor, InlayHint)| t.0,
        ) =~= settings_buffers(bufs, kinds, no_kinds()).to_remove);
    } else {
        lemma_visibility_round_trip_excerpts(bufs[0].1.excerpts, kinds);
        lemma_visibility_round_trip(bufs.skip(1), kinds);
        assert(settings_buffers(bufs, no_kinds(), kinds).to_insert.map_values(
            |t: (InlayId, Anchor, InlayHint)| t.0,
        ) =~= settings_buffers(bufs, kinds, no_kinds()).to_remove);
    }
}

/// The round-trip law over one buffer's excerpts.
pub proof fn lemma_visibility_round_trip_excerpts(
    exc: Seq<(u64, Seq<(Anchor, (InlayId, InlayHint))>)>,
    kinds: HintKindSet,
)
    ensures
        settings_excerpts(exc, kinds, no_kinds()).to_insert.len() == 0,
        settings_excerpts(exc, no_kinds(), kinds).to_remove.len() == 0,
        settings_excerpts(exc, no_kinds(), kinds).to_insert.map_values(
            |t: (InlayId, Anchor, InlayHint)| t.0,
        ) == settings_excerpts(exc, kinds, no_kinds()).to_remove,
    decreases exc.len(),
{
    if exc.len() == 0 {
        assert(settings_excerpts(exc, no_kinds(), kinds).to_insert.map_values(
            |t: (InlayId, Anchor, InlayHint)| t.0,
        ) =~= settings_excerpts(exc, kinds, no_kinds()).to_remove);
    } else {
        lemma_visibility_round_trip_entries(exc[0].1, kinds);
        lemma_visibility_round_trip_excerpts(exc.skip(1), kinds);
        assert(settings_excerpts(exc, no_kinds(), kinds).to_insert.map_values(
            |t: (InlayId, Anchor, InlayHint)| t.0,
        ) =~= settings_excerpts(exc, kinds, no_kinds()).to_remove);
    }
}

/// The round-trip law over one excerpt's entries.
pub proof fn lemma_visibility_round_trip_entries(
    es: Seq<(Anchor, (InlayId, InlayHint))>,
    kinds: HintKindSet,
)
    ensures
        settings_entries(es, kinds, no_kinds()).to_insert.len() == 0,
        settings_entries(es, no_kinds(), kinds).to_remove.len() == 0,
        settings_entries(es, no_kinds(), kinds).to_insert.map_values(
            |t: (InlayId, Anchor, InlayHint)| t.0,
        ) == settings_entries(es, kinds, no_kinds()).to_remove,
    decreases es.len(),
{
    if es.len() == 0 {
        assert(settings_entries(es, no_kinds(), kinds).to_insert.map_values(
            |t: (InlayId, Anchor, InlayHint)| t.0,
        ) =~= settings_entries(es, kinds, no_kinds()).to_remove);
    } else {
        lemma_visibility_round_trip_entries(es.skip(1), kinds);
        assert(settings_entries(es, no_kinds(), kinds).to_insert.map_values(
            |t: (InlayId, Anchor, InlayHint)| t.0,
        ) =~= settings_entries(es, kinds, no_kinds()).to_remove);
    }
}

/// Idempotence over one buffer: merging a buffer's excerpts never removes
/// an excerpt index and never lowers the version stamp, so right after a
/// batch's excerpts merge, every fetched excerpt is up to date at the
/// batch's version.
pub proof fn lemma_merge_covers_batch(
    bm: BufferModel,
    next: nat,
    batch_version: u64,
    exc: Seq<(u64, Option<Seq<(Anchor, InlayHint)>>)>,
)
    ensures
        ({
            let out = merge_buffer_excerpts(bm, next, batch_version, exc).buffer;
            &&& out.version >= bm.version
            &&& forall|e: int|
                0 <= e < exc.len() && (#[trigger] exc[e]).1 is Some ==> out.version >= batch_version
                    && assoc_contains(out.excerpts, exc[e].0)
            &&& forall|eid: u64|
                assoc_contains(bm.excerpts, eid) ==> assoc_contains(out.excerpts, eid)
        }),
    decreases exc.len(),
{
    if exc.len() == 0 {
    } else {
        let s1 = merge_one_excerpt(bm, next, batch_version, exc[0].0, exc[0].1);
        lemma_one_excerpt_preserves(bm, next, batch_version, exc[0].0, exc[0].1);
        lemma_merge_covers_batch(s1.buffer, s1.next_id, batch_version, exc.skip(1));
        let out = merge_buffer_excerpts(bm, next, batch_version, exc).buffer;
        assert(forall|e: int| 0 <= e < exc.skip(1).len() ==> #[trigger] exc.skip(1)[e] == exc[e + 1]);
        assert(out == merge_buffer_excerpts(s1.buffer, s1.next_id, batch_version, exc.skip(1)).buffer);
        assert(out.version >= s1.buffer.version >= bm.version);
        assert forall|e: int| 0 <= e < exc.len() && (#[trigger] exc[e]).1 is Some implies
            out.version >= batch_version && assoc_contains(out.excerpts, exc[e].0) by {
            if e == 0 {
                assert(s1.buffer.version >= batch_version);
                assert(assoc_contains(s1.buffer.excerpts, exc[0].0));
                assert(assoc_contains(out.excerpts, exc[0].0));
            } else {
                assert(exc.skip(1)[e - 1] == exc[e]);
            }
        }
        assert forall|eid: u64| assoc_contains(bm.excerpts, eid) implies assoc_contains(
            out.excerpts,
            eid,
        ) by {
            assert(assoc_contains(s1.buffer.excerpts, eid));
        }
    }
}

/// One excerpt's merge keeps every excerpt index that existed and never
/// lowers the version stamp; a fetched excerpt ends covered.
pub proof fn lemma_one_excerpt_preserves(
    bm: BufferModel,
    next: nat,
    batch_version: u64,
    excerpt_id: u64,
    fetch: Option<Seq<(Anchor, InlayHint)>>,
)
    ensures
        ({
            let out = merge_one_excerpt(bm, next, batch_version, excerpt_id, fetch).buffer;
            &&& out.version >= bm.version
            &&& forall|eid: u64|
                assoc_contains(bm.excerpts, eid) ==> assoc_contains(out.excerpts, eid)
            &&& (fetch is Some ==> out.version >= batch_version && assoc_contains(
                out.excerpts,
                excerpt_id,
            ))
        }),
{
    let out = merge_one_excerpt(bm, next, batch_version, excerpt_id, fetch).buffer;
    match fetch {
        None => {},
        Some(raw) => {
            lemma_merge_records_excerpt(bm, next, batch_version, excerpt_id, raw);
            if !(bm.version >= batch_version && assoc_contains(bm.excerpts, excerpt_id)) {
                let i = assoc_idx(bm.excerpts, excerpt_id);
                lemma_assoc_idx(bm.excerpts, excerpt_id);
                assert forall|eid: u64| assoc_contains(bm.excerpts, eid) implies assoc_contains(
                    out.excerpts,
                    eid,
                ) by {
                    let w = choose|w: int|
                        0 <= w < bm.excerpts.len() && (#[trigger] bm.excerpts[w]).0 == eid;
                    if assoc_contains(bm.excerpts, excerpt_id) {
                        if w == i {
                            assert(out.excerpts[i].0 == excerpt_id);
                            assert(out.excerpts[w].0 == eid);
                        } else {
                            assert(out.excerpts[w].0 == eid);
                        }
                    } else {
                        assert(out.excerpts[w].0 == eid);
                    }
                }
            }
        },
    }
}

/// Idempotence over one buffer, second half: when every fetched excerpt
/// of the batch is already up to date, the merge changes nothing and
/// schedules nothing.  Together with `lemma_merge_covers_batch`: merging
/// the same excerpts twice in a row leaves the second merge empty.
pub proof fn lemma_merge_idempotent(
    bm: BufferModel,
    next: nat,
    batch_version: u64,
    exc: Seq<(u64, Option<Seq<(Anchor, InlayHint)>>)>,
)
    requires
        forall|e: int|
            0 <= e < exc.len() && (#[trigger] exc[e]).1 is Some ==> bm.version >= batch_version
                && assoc_contains(bm.excerpts, exc[e].0),
    ensures
        merge_buffer_excerpts(bm, next, batch_version, exc).buffer == bm,
        merge_buffer_excerpts(bm, next, batch_version, exc).next_id == next,
        merge_buffer_excerpts(bm, next, batch_version, exc).to_remove.len() == 0,
        merge_buffer_excerpts(bm, next, batch_version, exc).to_insert.len() == 0,
    decreases exc.len(),
{
    if exc.len() == 0 {
    } else {
        let s1 = merge_one_excerpt(bm, next, batch_version, exc[0].0, exc[0].1);
        assert(s1.buffer == bm && s1.next_id == next);
        assert(forall|e: int| 0 <= e < exc.skip(1).len() ==> #[trigger] exc.skip(1)[e] == exc[e + 1]);
        lemma_merge_idempotent(bm, next, batch_version, exc.skip(1));
    }
}

// ------------------------------------------------------------------
// Monotonic ids over a whole batch
// ------------------------------------------------------------------

/// Freshness at the buffer level: reconciling one buffer's excerpts never
/// moves the allocator backward, and every id it schedules for insertion
/// lies between the allocator's value before and after.
pub proof fn lemma_buffer_fresh_ids(
    bm: BufferModel,
    next: nat,
    batch_version: u64,
    exc: Seq<(u64, Option<Seq<(Anchor, InlayHint)>>)>,
)
    requires
        next + crate::cache::buffer_hint_count(exc) <= usize::MAX,
    ensures
        next <= merge_buffer_excerpts(bm, next, batch_version, exc).next_id,
        forall|t: int|
            0 <= t < merge_buffer_excerpts(bm, next, batch_version, exc).to_insert.len() ==> next
                <= (#[trigger] merge_buffer_excerpts(bm, next, batch_version, exc).to_insert[t]).0.0
                < merge_buffer_excerpts(bm, next, batch_version, exc).next_id,
    decreases exc.len(),
{
    crate::cache::lemma_buffer_excerpts_next_bound(bm, next, batch_version, exc);
    if exc.len() == 0 {
    } else {
        let s1 = merge_one_excerpt(bm, next, batch_version, exc[0].0, exc[0].1);
        let step = merge_buffer_excerpts(bm, next, batch_version, exc);
        let rest = merge_buffer_excerpts(s1.buffer, s1.next_id, batch_version, exc.skip(1));
        match exc[0].1 {
            None => {},
            Some(raw) => {
                if !(bm.version >= batch_version && assoc_contains(bm.excerpts, exc[0].0)) {
                    let old_entries = if assoc_contains(bm.excerpts, exc[0].0) {
                        bm.excerpts[assoc_idx(bm.excerpts, exc[0].0)].1
                    } else {
                        Seq::<(Anchor, (InlayId, InlayHint))>::empty()
                    };
                    lemma_merge_fresh_ids(old_entries, raw, next);
                    lemma_merge_next_bound(old_entries, raw, next);
                }
            },
        }
        lemma_buffer_fresh_ids(s1.buffer, s1.next_id, batch_version, exc.skip(1));
        crate::cache::lemma_buffer_excerpts_next_bound(
            s1.buffer,
            s1.next_id,
            batch_version,
            exc.skip(1),
        );
        assert forall|t: int| 0 <= t < step.to_insert.len() implies next <= (
        #[trigger] step.to_insert[t]).0.0 < step.next_id by {
            if t < s1.to_insert.len() {
                assert(step.to_insert[t] == s1.to_insert[t]);
            } else {
                assert(step.to_insert[t] == rest.to_insert[t - s1.to_insert.len()]);
            }
        }
    }
}

/// Freshness at the batch level: reconciling a whole batch never moves
/// the allocator backward, and every id it schedules for insertion lies
/// between the allocator's value before and after.
pub proof fn lemma_batch_fresh_ids(
    bufs: Seq<(u64, BufferModel)>,
    next: nat,
    batch: Seq<(u64, BatchModel)>,
)
    requires
        next + crate::cache::batch_hint_count(batch) <= usize::MAX,
    ensures
        next <= merge_batch_buffers(bufs, next, batch).next_id,
        forall|t: int|
            0 <= t < merge_batch_buffers(bufs, next, batch).to_insert.len() ==> next <= (
            #[trigger] merge_batch_buffers(bufs, next, batch).to_insert[t]).0.0
                < merge_batch_buffers(bufs, next, batch).next_id,
    decreases batch.len(),
{
    if batch.len() == 0 {
    } else {
        let s1 = merge_one_buffer(bufs, next, batch[0].0, batch[0].1);
        let step = merge_batch_buffers(bufs, next, batch);
        let rest = merge_batch_buffers(s1.buffers, s1.next_id, batch.skip(1));
        let bufs1 = if assoc_contains(bufs, batch[0].0) {
            bufs
        } else {
            bufs.push(
                (batch[0].0, BufferModel { version: batch[0].1.version, excerpts: Seq::empty() }),
            )
        };
        let i = assoc_idx(bufs1, batch[0].0);
        lemma_buffer_fresh_ids(bufs1[i].1, next, batch[0].1.version, batch[0].1.excerpts);
        crate::cache::lemma_buffer_excerpts_next_bound(
            bufs1[i].1,
            next,
            batch[0].1.version,
            batch[0].1.excerpts,
        );
        lemma_batch_fresh_ids(s1.buffers, s1.next_id, batch.skip(1));
        assert forall|t: int| 0 <= t < step.to_insert.len() implies next <= (
        #[trigger] step.to_insert[t]).0.0 < step.next_id by {
            if t < s1.to_insert.len() {
                assert(step.to_insert[t] == s1.to_insert[t]);
            } else {
                assert(step.to_insert[t] == rest.to_insert[t - s1.to_insert.len()]);
            }
        }
    }
}

/// Everything the visibility filter lets through was scheduled by the
/// merge.
pub proof fn lemma_filter_subset(
    ins: Seq<(InlayId, Anchor, InlayHint)>,
    allowed: crate::hints::HintKindSet,
)
    ensures
        forall|t: int|
            0 <= t < filter_inserts(ins, allowed).len() ==> ins.contains(
                #[trigger] filter_inserts(ins, allowed)[t],
            ),
    decreases ins.len(),
{
    if ins.len() == 0 {
    } else {
        lemma_filter_subset(ins.skip(1), allowed);
        let f = filter_inserts(ins, allowed);
        let f1 = filter_inserts(ins.skip(1), allowed);
        assert forall|t: int| 0 <= t < f.len() implies ins.contains(#[trigger] f[t]) by {
            let base: int = if allowed.spec_contains(ins[0].2@.kind) {
                1
            } else {
                0
            };
            if base == 1 && t == 0 {
                assert(ins[0] == f[0]);
            } else {
                assert(f[t] == f1[t - base]);
                let u = choose|u: int| 0 <= u < ins.skip(1).len() && ins.skip(1)[u] == f1[t - base];
                assert(ins[u + 1] == f[t]);
            }
        }
    }
}

/// Monotonic ids: a reconciliation never moves the id allocator backward,
/// and every id it exposes for insertion is fresh — at least the
/// allocator's value before the merge and below its value after.  Since
/// `clear` keeps the allocator, no id is ever issued twice, even across
/// clears.
pub proof fn lemma_monotonic_ids(c: CacheModel, batch: Seq<(u64, BatchModel)>)
    requires
        c.next_id + crate::cache::batch_hint_count(batch) <= usize::MAX,
    ensures
        c.next_id <= merge_batch(c, batch).cache.next_id,
        forall|t: int|
            0 <= t < merge_batch(c, batch).to_insert.len() ==> c.next_id <= (
            #[trigger] merge_batch(c, batch).to_insert[t]).0.0 < merge_batch(
                c,
                batch,
            ).cache.next_id,
{
    let s = merge_batch_buffers(c.buffers, c.next_id, batch);
    lemma_batch_fresh_ids(c.buffers, c.next_id, batch);
    lemma_filter_subset(s.to_insert, c.allowed);
    let out = merge_batch(c, batch);
    assert forall|t: int| 0 <= t < out.to_insert.len() implies c.next_id <= (
    #[trigger] out.to_insert[t]).0.0 < out.cache.next_id by {
        assert(s.to_insert.contains(out.to_insert[t]));
        let u = choose|u: int| 0 <= u < s.to_insert.len() && s.to_insert[u] == out.to_insert[t];
        assert(c.next_id <= s.to_insert[u].0.0 < s.next_id);
    }
}

// ------------------------------------------------------------------
// Idempotence over a whole batch
// ------------------------------------------------------------------

/// A per-buffer store covers one buffer's part of a batch: for every
/// excerpt the batch fetched, the store is at or past the batch's version
/// and holds an index for that excerpt.
pub open spec fn buffer_covers(bm: BufferModel, bb: BatchModel) -> bool {
    forall|e: int|
        0 <= e < bb.excerpts.len() && (#[trigger] bb.excerpts[e]).1 is Some ==> bm.version
            >= bb.version && assoc_contains(bm.excerpts, bb.excerpts[e].0)
}

/// The cache's stores cover every buffer of a batch.
pub open spec fn batch_covered(bufs: Seq<(u64, BufferModel)>, batch: Seq<(u64, BatchModel)>) -> bool {
    forall|k: int|
        0 <= k < batch.len() ==> assoc_contains(bufs, (#[trigger] batch[k]).0) && buffer_covers(
            bufs[assoc_idx(bufs, batch[k].0)].1,
            batch[k].1,
        )
}

/// A store whose version only grew and whose excerpt set only widened.
pub open spec fn buffer_extends(b2: BufferModel, b1: BufferModel) -> bool {
    &&& b2.version >= b1.version
    &&& forall|eid: u64|
        #[trigger] assoc_contains(b1.excerpts, eid) ==> assoc_contains(b2.excerpts, eid)
}

/// Growing a store keeps it covering whatever it covered.
pub proof fn lemma_covers_extends(b2: BufferModel, b1: BufferModel, bb: BatchModel)
    requires
        buffer_covers(b1, bb),
        buffer_extends(b2, b1),
    ensures
        buffer_covers(b2, bb),
{
}

/// Merging one buffer of a batch widens that buffer's store into covering
/// its part of the batch, and only extends every store that existed.
pub proof fn lemma_one_buffer_coverage(
    bufs: Seq<(u64, BufferModel)>,
    next: nat,
    buffer_id: u64,
    bb: BatchModel,
)
    ensures
        ({
            let out = merge_one_buffer(bufs, next, buffer_id, bb).buffers;
            &&& forall|bid2: u64|
                #[trigger] assoc_contains(bufs, bid2) ==> assoc_contains(out, bid2)
                    && buffer_extends(
                    out[assoc_idx(out, bid2)].1,
                    bufs[assoc_idx(bufs, bid2)].1,
                )
            &&& assoc_contains(out, buffer_id)
            &&& buffer_covers(out[assoc_idx(out, buffer_id)].1, bb)
        }),
{
    let bufs1 = if assoc_contains(bufs, buffer_id) {
        bufs
    } else {
        bufs.push((buffer_id, BufferModel { version: bb.version, excerpts: Seq::empty() }))
    };
    let i = assoc_idx(bufs1, buffer_id);
    let step = merge_buffer_excerpts(bufs1[i].1, next, bb.version, bb.excerpts);
    let out = merge_one_buffer(bufs, next, buffer_id, bb).buffers;
    lemma_assoc_idx(bufs, buffer_id);
    lemma_assoc_idx(bufs1, buffer_id);
    if !assoc_contains(bufs, buffer_id) {
        lemma_assoc_idx_unique(bufs1, buffer_id, bufs.len() as int);
    }
    assert(bufs1[i].0 == buffer_id);
    assert(out =~= bufs1.update(i, (buffer_id, step.buffer)));
    assert(forall|j: int| 0 <= j < out.len() ==> (#[trigger] out[j]).0 == bufs1[j].0);
    lemma_assoc_idx_keys_eq(out, bufs1, buffer_id);
    lemma_merge_covers_batch(bufs1[i].1, next, bb.version, bb.excerpts);
    // The merged store covers its own part of the batch.
    assert(out[i].1 == step.buffer);
    assert(buffer_covers(step.buffer, bb));
    // Every store that existed is only extended.
    assert forall|bid2: u64| #[trigger] assoc_contains(bufs, bid2) implies assoc_contains(
        out,
        bid2,
    ) && buffer_extends(out[assoc_idx(out, bid2)].1, bufs[assoc_idx(bufs, bid2)].1) by {
        lemma_assoc_idx(bufs, bid2);
        let i2 = assoc_idx(bufs, bid2);
        if !assoc_contains(bufs, buffer_id) {
            lemma_assoc_idx_push(
                bufs,
                bid2,
                (buffer_id, BufferModel { version: bb.version, excerpts: Seq::empty() }),
            );
        }
        assert(assoc_idx(bufs1, bid2) == i2 && bufs1[i2] == bufs[i2]);
        lemma_assoc_idx_keys_eq(out, bufs1, bid2);
        assert(assoc_contains(out, bid2));
        if bid2 == buffer_id {
            assert(i2 == i);
            assert(out[i].1 == step.buffer);
            assert(buffer_extends(step.buffer, bufs1[i].1));
        } else {
            assert(bufs1[i2].0 == bid2 && bufs1[i].0 == buffer_id);
            assert(i2 != i);
            assert(out[i2] == bufs1[i2]);
        }
    }
}

/// After a whole batch merges, every buffer of the batch is covered, and
/// every store that existed before is only extended.
pub proof fn lemma_batch_coverage(
    bufs: Seq<(u64, BufferModel)>,
    next: nat,
    batch: Seq<(u64, BatchModel)>,
)
    ensures
        ({
            let out = merge_batch_buffers(bufs, next, batch).buffers;
            &&& batch_covered(out, batch)
            &&& forall|bid2: u64|
                #[trigger] assoc_contains(bufs, bid2) ==> assoc_contains(out, bid2)
                    && buffer_extends(
                    out[assoc_idx(out, bid2)].1,
                    bufs[assoc_idx(bufs, bid2)].1,
                )
        }),
    decreases batch.len(),
{
    if batch.len() == 0 {
        assert forall|bid2: u64| #[trigger] assoc_contains(bufs, bid2) implies assoc_contains(
            bufs,
            bid2,
        ) && buffer_extends(
            bufs[assoc_idx(bufs, bid2)].1,
            bufs[assoc_idx(bufs, bid2)].1,
        ) by {}
    } else {
        let s1 = merge_one_buffer(bufs, next, batch[0].0, batch[0].1);
        lemma_one_buffer_coverage(bufs, next, batch[0].0, batch[0].1);
        lemma_batch_coverage(s1.buffers, s1.next_id, batch.skip(1));
        let out = merge_batch_buffers(bufs, next, batch).buffers;
        assert(out == merge_batch_buffers(s1.buffers, s1.next_id, batch.skip(1)).buffers);
        assert(forall|k: int|
            0 <= k < batch.skip(1).len() ==> #[trigger] batch.skip(1)[k] == batch[k + 1]);
        assert forall|k: int| 0 <= k < batch.len() implies assoc_contains(
            out,
            (#[trigger] batch[k]).0,
        ) && buffer_covers(out[assoc_idx(out, batch[k].0)].1, batch[k].1) by {
            if k == 0 {
                assert(assoc_contains(s1.buffers, batch[0].0));
                assert(assoc_contains(out, batch[0].0));
                lemma_covers_extends(
                    out[assoc_idx(out, batch[0].0)].1,
                    s1.buffers[assoc_idx(s1.buffers, batch[0].0)].1,
                    batch[0].1,
                );
            } else {
                assert(batch.skip(1)[k - 1] == batch[k]);
            }
        }
        assert forall|bid2: u64| #[trigger] assoc_contains(bufs, bid2) implies assoc_contains(
            out,
            bid2,
        ) && buffer_extends(out[assoc_idx(out, bid2)].1, bufs[assoc_idx(bufs, bid2)].1) by {
            assert(assoc_contains(s1.buffers, bid2));
            assert(buffer_extends(
                out[assoc_idx(out, bid2)].1,
                s1.buffers[assoc_idx(s1.buffers, bid2)].1,
            ));
        }
    }
}

/// Every store the purge keeps belongs to a buffer of the batch, and the
/// first store of any batch buffer survives the purge unchanged.
pub proof fn lemma_purge_keys(bufs: Seq<(u64, BufferModel)>, batch: Seq<(u64, BatchModel)>)
    ensures
        ({
            let p = purge_buffers(bufs, batch);
            &&& forall|t: int|
                0 <= t < p.buffers.len() ==> assoc_contains(batch, (#[trigger] p.buffers[t]).0)
            &&& forall|bid: u64|
                assoc_contains(batch, bid) && #[trigger] assoc_contains(bufs, bid)
                    ==> assoc_contains(p.buffers, bid) && p.buffers[assoc_idx(p.buffers, bid)]
                    == bufs[assoc_idx(bufs, bid)]
        }),
    decreases bufs.len(),
{
    if bufs.len() == 0 {
    } else {
        lemma_purge_keys(bufs.skip(1), batch);
        let p = purge_buffers(bufs, batch);
        let p1 = purge_buffers(bufs.skip(1), batch);
        assert(forall|j: int| 0 <= j < bufs.skip(1).len() ==> #[trigger] bufs.skip(1)[j] == bufs[j + 1]);
        if assoc_contains(batch, bufs[0].0) {
            assert(forall|t: int| 0 <= t < p.buffers.len() ==> (#[trigger] p.buffers[t]) == if t
                == 0 {
                bufs[0]
            } else {
                p1.buffers[t - 1]
            });
            assert forall|bid: u64|
                assoc_contains(batch, bid) && #[trigger] assoc_contains(bufs, bid) implies
                assoc_contains(p.buffers, bid) && p.buffers[assoc_idx(p.buffers, bid)]
                    == bufs[assoc_idx(bufs, bid)] by {
                lemma_assoc_idx(bufs, bid);
                lemma_assoc_idx(p.buffers, bid);
                if bid == bufs[0].0 {
                    assert(p.buffers[0] == bufs[0]);
                    lemma_assoc_idx_unique(p.buffers, bid, 0);
                    lemma_assoc_idx_unique(bufs, bid, 0);
                } else {
                    let w = choose|w: int|
                        0 <= w < bufs.len() && (#[trigger] bufs[w]).0 == bid;
                    assert(bufs.skip(1)[w - 1].0 == bid);
                    assert(assoc_contains(bufs.skip(1), bid));
                    assert(assoc_contains(p1.buffers, bid));
                    let u = assoc_idx(p1.buffers, bid);
                    lemma_assoc_idx(p1.buffers, bid);
                    assert(p.buffers[u + 1] == p1.buffers[u]);
                    assert forall|j: int| 0 <= j < u + 1 implies (#[trigger] p.buffers[j]).0
                        != bid by {
                        if j > 0 {
                            assert(p.buffers[j] == p1.buffers[j - 1]);
                        }
                    }
                    lemma_assoc_idx_unique(p.buffers, bid, u + 1);
                    let v = assoc_idx(bufs.skip(1), bid);
                    lemma_assoc_idx(bufs.skip(1), bid);
                    assert(bufs[v + 1] == bufs.skip(1)[v]);
                    assert forall|j: int| 0 <= j < v + 1 implies (#[trigger] bufs[j]).0 != bid by {
                        if j > 0 {
                            assert(bufs.skip(1)[j - 1].0 != bid);
                        }
                    }
                    lemma_assoc_idx_unique(bufs, bid, v + 1);
                }
            }
        } else {
            assert forall|bid: u64|
                assoc_contains(batch, bid) && #[trigger] assoc_contains(bufs, bid) implies
                assoc_contains(p.buffers, bid) && p.buffers[assoc_idx(p.buffers, bid)]
                    == bufs[assoc_idx(bufs, bid)] by {
                assert(bid != bufs[0].0);
                let w = choose|w: int| 0 <= w < bufs.len() && (#[trigger] bufs[w]).0 == bid;
                assert(bufs.skip(1)[w - 1].0 == bid);
                assert(assoc_contains(bufs.skip(1), bid));
                let v = assoc_idx(bufs.skip(1), bid);
                lemma_assoc_idx(bufs.skip(1), bid);
                assert(bufs[v + 1] == bufs.skip(1)[v]);
                assert forall|j: int| 0 <= j < v + 1 implies (#[trigger] bufs[j]).0 != bid by {
                    if j > 0 {
                        assert(bufs.skip(1)[j - 1].0 != bid);
                    }
                }
                lemma_assoc_idx_unique(bufs, bid, v + 1);
            }
        }
    }
}

/// Purging a cache whose every buffer the batch mentions drops nothing.
pub proof fn lemma_purge_covered_identity(
    bufs: Seq<(u64, BufferModel)>,
    batch: Seq<(u64, BatchModel)>,
)
    requires
        forall|t: int| 0 <= t < bufs.len() ==> assoc_contains(batch, (#[trigger] bufs[t]).0),
    ensures
        purge_buffers(bufs, batch).buffers == bufs,
        purge_buffers(bufs, batch).to_remove.len() == 0,
    decreases bufs.len(),
{
    if bufs.len() == 0 {
        assert(purge_buffers(bufs, batch).buffers =~= bufs);
    } else {
        assert(forall|j: int| 0 <= j < bufs.skip(1).len() ==> #[trigger] bufs.skip(1)[j] == bufs[j + 1]);
        lemma_purge_covered_identity(bufs.skip(1), batch);
        assert(purge_buffers(bufs, batch).buffers =~= bufs);
    }
}

/// Merging a batch the cache already covers changes nothing and schedules
/// nothing.
pub proof fn lemma_batch_merge_covered_empty(
    bufs: Seq<(u64, BufferModel)>,
    next: nat,
    batch: Seq<(u64, BatchModel)>,
)
    requires
        batch_covered(bufs, batch),
    ensures
        merge_batch_buffers(bufs, next, batch).buffers == bufs,
        merge_batch_buffers(bufs, next, batch).next_id == next,
        merge_batch_buffers(bufs, next, batch).to_remove.len() == 0,
        merge_batch_buffers(bufs, next, batch).to_insert.len() == 0,
    decreases batch.len(),
{
    if batch.len() == 0 {
    } else {
        let s1 = merge_one_buffer(bufs, next, batch[0].0, batch[0].1);
        assert(assoc_contains(bufs, batch[0].0));
        let i = assoc_idx(bufs, batch[0].0);
        lemma_assoc_idx(bufs, batch[0].0);
        lemma_merge_idempotent(bufs[i].1, next, batch[0].1.version, batch[0].1.excerpts);
        assert(s1.buffers =~= bufs) by {
            assert(bufs[i] == (batch[0].0, bufs[i].1));
        }
        assert(s1.next_id == next);
        assert(forall|k: int|
            0 <= k < batch.skip(1).len() ==> #[trigger] batch.skip(1)[k] == batch[k + 1]);
        lemma_batch_merge_covered_empty(bufs, next, batch.skip(1));
        assert(merge_batch_buffers(bufs, next, batch).to_remove =~= merge_batch_buffers(
            bufs,
            next,
            batch.skip(1),
        ).to_remove);
        assert(merge_batch_buffers(bufs, next, batch).to_insert =~= merge_batch_buffers(
            bufs,
            next,
            batch.skip(1),
        ).to_insert);
    }
}

/// Idempotence: reconciling the same batch twice in a row, with no state
/// change in between, leaves the cache as the first reconciliation left
/// it and yields an empty splice the second time.
pub proof fn lemma_fetch_idempotent(c: CacheModel, batch: Seq<(u64, BatchModel)>)
    ensures
        merge_batch(merge_batch(c, batch).cache, batch).cache == merge_batch(c, batch).cache,
        merge_batch(merge_batch(c, batch).cache, batch).to_remove.len() == 0,
        merge_batch(merge_batch(c, batch).cache, batch).to_insert.len() == 0,
{
    let s = merge_batch_buffers(c.buffers, c.next_id, batch);
    let p = purge_buffers(s.buffers, batch);
    let c1 = merge_batch(c, batch).cache;
    assert(c1.buffers == p.buffers);
    lemma_batch_coverage(c.buffers, c.next_id, batch);
    lemma_purge_keys(s.buffers, batch);
    assert forall|k: int| 0 <= k < batch.len() implies assoc_contains(
        p.buffers,
        (#[trigger] batch[k]).0,
    ) && buffer_covers(p.buffers[assoc_idx(p.buffers, batch[k].0)].1, batch[k].1) by {
        assert(assoc_contains(batch, batch[k].0));
        assert(assoc_contains(s.buffers, batch[k].0));
        assert(p.buffers[assoc_idx(p.buffers, batch[k].0)] == s.buffers[assoc_idx(
            s.buffers,
            batch[k].0,
        )]);
    }
    lemma_batch_merge_covered_empty(p.buffers, s.next_id, batch);
    lemma_purge_covered_identity(p.buffers, batch);
    let s2 = merge_batch_buffers(c1.buffers, c1.next_id, batch);
    assert(filter_inserts(s2.to_insert, c1.allowed).len() == 0);
}

} // verus!
