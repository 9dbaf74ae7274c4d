//! The inlay cache: per-buffer stores of cached hints, the set of visible
//! hint kinds, and the monotonically increasing id allocator, together with
//! the operations that reconcile fetched batches, apply visibility changes,
//! and clear the cache.

use vstd::prelude::*;
use crate::anchors::{Anchor, OrderedByAnchorOffset};
use crate::hints::{
    allowed_inlay_hint_types, spec_allowed_inlay_hint_types, HintKindSet, InlayHint, InlayHints,
    InlayId, InlaySplice,
};
use crate::merge::{merge_excerpt, merge_seqs, ExcerptMerge};

verus! {

// ------------------------------------------------------------------
// Mathematical models
// ------------------------------------------------------------------

/// The mathematical value of one per-buffer store: the buffer-version
/// stamp and the excerpt-id-indexed ordered hint entries.
pub struct BufferModel {
    pub version: u64,
    pub excerpts: Seq<(u64, Seq<(Anchor, (InlayId, InlayHint))>)>,
}

/// The mathematical value of the whole cache.
pub struct CacheModel {
    pub buffers: Seq<(u64, BufferModel)>,
    pub allowed: HintKindSet,
    pub next_id: nat,
}

/// The mathematical value of one buffer's part of a fetched batch:
/// `None` for an excerpt marks "skipped, no change", `Some` marks
/// "fetched, possibly empty".
pub struct BatchModel {
    pub version: u64,
    pub excerpts: Seq<(u64, Option<Seq<(Anchor, InlayHint)>>)>,
}

// ------------------------------------------------------------------
// Association-list helpers
// ------------------------------------------------------------------

/// Whether the association list `s` holds key `k`.
pub open spec fn assoc_contains<V>(s: Seq<(u64, V)>, k: u64) -> bool {
    exists|i: int| 0 <= i < s.len() && (#[trigger] s[i]).0 == k
}

/// The first index of key `k` in `s` (the list's length if `k` is absent).
pub open spec fn assoc_idx<V>(s: Seq<(u64, V)>, k: u64) -> int
    decreases s.len(),
{
    if s.len() == 0 {
        0
    } else if s[0].0 == k {
        0
    } else {
        1 + assoc_idx(s.skip(1), k)
    }
}

/// The first index found by `assoc_idx` is in range and holds `k` exactly
/// when `k` is present, and no earlier index holds `k`.
pub proof fn lemma_assoc_idx<V>(s: Seq<(u64, V)>, k: u64)
    ensures
        0 <= assoc_idx(s, k) <= s.len(),
        assoc_contains(s, k) <==> (assoc_idx(s, k) < s.len() && s[assoc_idx(s, k)].0 == k),
        forall|j: int| 0 <= j < assoc_idx(s, k) ==> (#[trigger] s[j]).0 != k,
    decreases s.len(),
{
    if s.len() == 0 {
    } else if s[0].0 == k {
    } else {
        lemma_assoc_idx(s.skip(1), k);
        assert(forall|j: int| 0 <= j < s.skip(1).len() ==> s.skip(1)[j] == s[j + 1]);
        assert forall|j: int| 0 <= j < assoc_idx(s, k) implies (#[trigger] s[j]).0 != k by {
            if j > 0 {
                assert(s.skip(1)[j - 1] == s[j]);
                assert(s.skip(1)[j - 1].0 != k);
            }
        }
        if assoc_contains(s, k) {
            let w = choose|i: int| 0 <= i < s.len() && (#[trigger] s[i]).0 == k;
            assert(s.skip(1)[w - 1].0 == k);
        }
        if assoc_contains(s.skip(1), k) {
            let w = choose|i: int| 0 <= i < s.skip(1).len() && (#[trigger] s.skip(1)[i]).0 == k;
            assert(s[w + 1].0 == k);
        }
    }
}

/// `assoc_idx` is determined by its characteristic properties: any index
/// that holds `k` with no earlier index holding `k` is `assoc_idx`.
pub proof fn lemma_assoc_idx_unique<V>(s: Seq<(u64, V)>, k: u64, i: int)
    requires
        0 <= i < s.len(),
        s[i].0 == k,
        forall|j: int| 0 <= j < i ==> (#[trigger] s[j]).0 != k,
    ensures
        assoc_idx(s, k) == i,
        assoc_contains(s, k),
    decreases s.len(),
{
    assert(assoc_contains(s, k));
    if s[0].0 == k {
        assert(i == 0);
    } else {
        assert(forall|j: int| 0 <= j < s.skip(1).len() ==> #[trigger] s.skip(1)[j] == s[j + 1]);
        lemma_assoc_idx_unique(s.skip(1), k, i - 1);
    }
}

/// Appending an entry does not move the first occurrence of a key that is
/// already present.
pub proof fn lemma_assoc_idx_push<V>(s: Seq<(u64, V)>, k: u64, x: (u64, V))
    requires
        assoc_contains(s, k),
    ensures
        assoc_idx(s.push(x), k) == assoc_idx(s, k),
        assoc_contains(s.push(x), k),
        s.push(x)[assoc_idx(s, k)] == s[assoc_idx(s, k)],
{
    lemma_assoc_idx(s, k);
    lemma_assoc_idx_unique(s.push(x), k, assoc_idx(s, k));
}

/// Finds the first entry of an association list holding key `k`.
fn assoc_find<V>(v: &Vec<(u64, V)>, k: u64) -> (r: Option<usize>)
    ensures
        match r {
            Some(i) => i as int == assoc_idx(v@, k) && i < v@.len() && v@[i as int].0 == k,
            None => !assoc_contains(v@, k),
        },
{
    let mut i: usize = 0;
    while i < v.len()
        invariant
            0 <= i <= v@.len(),
            forall|j: int| 0 <= j < i ==> (#[trigger] v@[j]).0 != k,
        decreases v@.len() - i,
    {
        if v[i].0 == k {
            proof {
                lemma_assoc_idx(v@, k);
                if assoc_idx(v@, k) < i {
                    assert(v@[assoc_idx(v@, k)].0 != k);
                }
            }
            return Some(i);
        }
        i = i + 1;
    }
    proof {
        if assoc_contains(v@, k) {
            let w = choose|j: int| 0 <= j < v@.len() && (#[trigger] v@[j]).0 == k;
            assert(v@[w].0 != k);
        }
    }
    None
}

// ------------------------------------------------------------------
// Executable state
// ------------------------------------------------------------------

/// One per-buffer store: a buffer-version stamp plus, per excerpt, the
/// ordered index of cached `(id, hint)` pairs.
#[derive(Debug, Clone)]
pub struct BufferInlays {
    buffer_version: u64,
    inlays_per_excerpts: Vec<(u64, OrderedByAnchorOffset<(InlayId, InlayHint)>)>,
}

impl View for BufferInlays {
    type V = BufferModel;

    closed spec fn view(&self) -> BufferModel {
        BufferModel {
            version: self.buffer_version,
            excerpts: self.inlays_per_excerpts@.map_values(
                |p: (u64, OrderedByAnchorOffset<(InlayId, InlayHint)>)| (p.0, p.1@),
            ),
        }
    }
}

/// One buffer's part of a fetched batch, keyed by excerpt id.
pub struct BufferBatch {
    pub buffer_version: u64,
    pub excerpts: Vec<(u64, Option<OrderedByAnchorOffset<InlayHint>>)>,
}

impl View for BufferBatch {
    type V = BatchModel;

    open spec fn view(&self) -> BatchModel {
        BatchModel {
            version: self.buffer_version,
            excerpts: self.excerpts@.map_values(
                |p: (u64, Option<OrderedByAnchorOffset<InlayHint>>)|
                    (
                        p.0,
                        match p.1 {
                            Some(idx) => Some(idx@),
                            None => None,
                        },
                    ),
            ),
        }
    }
}

/// The model of a whole fetched batch.
pub open spec fn batch_model(s: Seq<(u64, BufferBatch)>) -> Seq<(u64, BatchModel)> {
    s.map_values(|p: (u64, BufferBatch)| (p.0, p.1@))
}

/// The top-level cache state.
#[derive(Debug)]
pub struct InlayCache {
    inlays_per_buffer: Vec<(u64, BufferInlays)>,
    allowed_hint_kinds: HintKindSet,
    next_inlay_id: usize,
}

impl View for InlayCache {
    type V = CacheModel;

    closed spec fn view(&self) -> CacheModel {
        CacheModel {
            buffers: self.inlays_per_buffer@.map_values(
                |p: (u64, BufferInlays)| (p.0, p.1@),
            ),
            allowed: self.allowed_hint_kinds,
            next_id: self.next_inlay_id as nat,
        }
    }
}

// ------------------------------------------------------------------
// Fetch requests and their outcomes
// ------------------------------------------------------------------

/// One fetch request: which buffer and excerpt to query, at which buffer
/// version, over which offset range.
#[derive(Debug)]
pub struct QueryInlaysRange {
    pub buffer_id: u64,
    pub buffer_version: u64,
    pub excerpt_id: u64,
    pub excerpt_offset_range: (usize, usize),
}

/// How one issued query settled.
///
/// A query skipped because the cache was already up to date contributes
/// "no change" for its excerpt; a failed query is excluded from the batch
/// without affecting the others; a settled query carries the raw
/// `(offset, hint)` pairs the hint source returned.
#[derive(Debug)]
pub enum InlayFetchOutcome {
    Skipped,
    Fetched(Vec<(usize, InlayHint)>),
    Failed,
}

/// One fetch request together with how it settled.
#[derive(Debug)]
pub struct InlayFetchResult {
    pub query: QueryInlaysRange,
    pub outcome: InlayFetchOutcome,
}

/// An offset range clamped to the buffer's current length, protecting a
/// stale range from outliving a shrink.
pub fn clamped_query_range(start: usize, end: usize, buffer_len: usize) -> (r: (usize, usize))
    ensures
        r.0 == start,
        r.1 == if end <= buffer_len {
            end as int
        } else {
            buffer_len as int
        },
{
    if end <= buffer_len {
        (start, end)
    } else {
        (start, buffer_len)
    }
}

/// The ordered index built from raw fetched hints, each anchored at its
/// offset with the request's buffer version as the creation stamp.
pub open spec fn build_index(hints: Seq<(usize, InlayHint)>, stamp: u64) -> Seq<(Anchor, InlayHint)>
    decreases hints.len(),
{
    if hints.len() == 0 {
        Seq::empty()
    } else {
        crate::anchors::spec_add(
            build_index(hints.take(hints.len() - 1), stamp),
            Anchor { offset: hints.last().0, timestamp: stamp },
            hints.last().1,
        )
    }
}

/// How one settled query extends the batch under construction: the first
/// result for a buffer fixes the batch's version for it, and each result
/// sets its excerpt's entry.
pub open spec fn group_into(
    acc: Seq<(u64, BatchModel)>,
    r: InlayFetchResult,
) -> Seq<(u64, BatchModel)> {
    match r.outcome {
        InlayFetchOutcome::Failed => acc,
        _ => {
            let bid = r.query.buffer_id;
            let eid = r.query.excerpt_id;
            let acc1 = if assoc_contains(acc, bid) {
                acc
            } else {
                acc.push((bid, BatchModel { version: r.query.buffer_version, excerpts: Seq::empty() }))
            };
            let i = assoc_idx(acc1, bid);
            let entry = match r.outcome {
                InlayFetchOutcome::Skipped => None,
                InlayFetchOutcome::Fetched(hints) => Some(
                    build_index(hints@, r.query.buffer_version),
                ),
                InlayFetchOutcome::Failed => None,
            };
            let b = acc1[i].1;
            let j = assoc_idx(b.excerpts, eid);
            let exc2 = if assoc_contains(b.excerpts, eid) {
                b.excerpts.update(j, (eid, entry))
            } else {
                b.excerpts.push((eid, entry))
            };
            acc1.update(i, (bid, BatchModel { version: b.version, excerpts: exc2 }))
        },
    }
}

/// The batch grouped from the settled queries, in order.
pub open spec fn group_results(
    acc: Seq<(u64, BatchModel)>,
    rs: Seq<InlayFetchResult>,
) -> Seq<(u64, BatchModel)>
    decreases rs.len(),
{
    if rs.len() == 0 {
        acc
    } else {
        group_results(group_into(acc, rs[0]), rs.skip(1))
    }
}

// ------------------------------------------------------------------
// Staleness
// ------------------------------------------------------------------

/// The staleness rule: content for an excerpt is fresh exactly when the
/// store's recorded version is at least the requested one and an index
/// already exists for that excerpt.
pub open spec fn up_to_date_model(
    bufs: Seq<(u64, BufferModel)>,
    buffer_id: u64,
    buffer_version: u64,
    excerpt_id: u64,
) -> bool {
    &&& assoc_contains(bufs, buffer_id)
    &&& bufs[assoc_idx(bufs, buffer_id)].1.version >= buffer_version
    &&& assoc_contains(bufs[assoc_idx(bufs, buffer_id)].1.excerpts, excerpt_id)
}

// ------------------------------------------------------------------
// Flattened ids
// ------------------------------------------------------------------

/// The ids stored in one excerpt's entries, in order.
pub open spec fn entry_ids(es: Seq<(Anchor, (InlayId, InlayHint))>) -> Seq<InlayId> {
    es.map_values(|e: (Anchor, (InlayId, InlayHint))| e.1.0)
}

/// The ids stored across a buffer's excerpts, in order.
pub open spec fn excerpts_ids(exc: Seq<(u64, Seq<(Anchor, (InlayId, InlayHint))>)>) -> Seq<InlayId>
    decreases exc.len(),
{
    if exc.len() == 0 {
        Seq::empty()
    } else {
        entry_ids(exc[0].1) + excerpts_ids(exc.skip(1))
    }
}

/// The ids stored across all buffers, in order.
pub open spec fn buffers_ids(bufs: Seq<(u64, BufferModel)>) -> Seq<InlayId>
    decreases bufs.len(),
{
    if bufs.len() == 0 {
        Seq::empty()
    } else {
        excerpts_ids(bufs[0].1.excerpts) + buffers_ids(bufs.skip(1))
    }
}

impl InlayCache {
    /// An empty cache whose visible kinds follow `inlay_hint_settings` and
    /// whose id allocator starts at zero.
    pub fn new(inlay_hint_settings: InlayHints) -> (r: Self)
        ensures
            r@.buffers == Seq::<(u64, BufferModel)>::empty(),
            r@.allowed == spec_allowed_inlay_hint_types(inlay_hint_settings),
            r@.next_id == 0,
    {
        let r = InlayCache {
            inlays_per_buffer: Vec::new(),
            allowed_hint_kinds: allowed_inlay_hint_types(inlay_hint_settings),
            next_inlay_id: 0,
        };
        proof {
            assert(r@.buffers =~= Seq::<(u64, BufferModel)>::empty());
        }
        r
    }

    /// The next id the allocator will issue.
    pub fn next_inlay_id(&self) -> (r: usize)
        ensures
            r as nat == self@.next_id,
    {
        self.next_inlay_id
    }

    /// Whether a fetch for `(buffer_id, excerpt_id)` at `buffer_version`
    /// would find the cache already up to date.
    pub fn inlays_up_to_date(
        &self,
        buffer_id: u64,
        buffer_version: u64,
        excerpt_id: u64,
    ) -> (r: bool)
        ensures
            r == up_to_date_model(self@.buffers, buffer_id, buffer_version, excerpt_id),
    {
        proof {
            lemma_assoc_idx(self@.buffers, buffer_id);
            lemma_assoc_idx_keys_eq(self.inlays_per_buffer@, self@.buffers, buffer_id);
        }
        let found = assoc_find(&self.inlays_per_buffer, buffer_id);
        match found {
            None => false,
            Some(i) => {
                proof {
                    assert(self@.buffers[i as int].1 == self.inlays_per_buffer@[i as int].1@);
                }
                let buffer_inlays = &self.inlays_per_buffer[i].1;
                let buffer_up_to_date = buffer_inlays.buffer_version >= buffer_version;
                if !buffer_up_to_date {
                    return false;
                }
                proof {
                    lemma_assoc_idx_keys_eq(
                        buffer_inlays.inlays_per_excerpts@,
                        self@.buffers[i as int].1.excerpts,
                        excerpt_id,
                    );
                }
                let exc_found = assoc_find(&buffer_inlays.inlays_per_excerpts, excerpt_id);
                exc_found.is_some()
            },
        }
    }

    /// Drops every per-buffer store and returns every id that was cached,
    /// to be removed from the view.  The id allocator is not reset, so ids
    /// are never reused even across clears; the visible-kind set is kept.
    pub fn clear(&mut self) -> (r: Vec<InlayId>)
        ensures
            r@ == buffers_ids(old(self)@.buffers),
            final(self)@.buffers == Seq::<(u64, BufferModel)>::empty(),
            final(self)@.allowed == old(self)@.allowed,
            final(self)@.next_id == old(self)@.next_id,
    {
        let ghost bufs0 = self@.buffers;
        let mut ids: Vec<InlayId> = Vec::new();
        proof {
            assert(bufs0.skip(0) =~= bufs0);
            assert(ids@ + buffers_ids(bufs0) =~= buffers_ids(bufs0));
        }
        let mut bi: usize = 0;
        while bi < self.inlays_per_buffer.len()
            invariant
                0 <= bi <= self.inlays_per_buffer@.len(),
                self@.buffers == bufs0,
                ids@ + buffers_ids(bufs0.skip(bi as int)) == buffers_ids(bufs0),
            decreases self.inlays_per_buffer@.len() - bi,
        {
            proof {
                assert(bufs0[bi as int].1 == self.inlays_per_buffer@[bi as int].1@);
                assert(bufs0.skip(bi as int)[0] == bufs0[bi as int]);
                assert(bufs0.skip(bi as int).skip(1) =~= bufs0.skip(bi as int + 1));
            }
            let buffer_inlays = &self.inlays_per_buffer[bi].1;
            let ghost exc_model = bufs0[bi as int].1.excerpts;
            proof {
                assert(exc_model.skip(0) =~= exc_model);
                assert(ids@ + excerpts_ids(exc_model) + buffers_ids(bufs0.skip(bi as int + 1))
                    =~= ids@ + (excerpts_ids(exc_model) + buffers_ids(bufs0.skip(bi as int + 1))));
            }
            let mut ei: usize = 0;
            while ei < buffer_inlays.inlays_per_excerpts.len()
                invariant
                    0 <= ei <= buffer_inlays.inlays_per_excerpts@.len(),
                    exc_model == buffer_inlays@.excerpts,
                    ids@ + excerpts_ids(exc_model.skip(ei as int)) + buffers_ids(
                        bufs0.skip(bi as int + 1),
                    ) == buffers_ids(bufs0),
                decreases buffer_inlays.inlays_per_excerpts@.len() - ei,
            {
                proof {
                    assert(exc_model[ei as int].1
                        == buffer_inlays.inlays_per_excerpts@[ei as int].1@);
                    assert(exc_model.skip(ei as int)[0] == exc_model[ei as int]);
                    assert(exc_model.skip(ei as int).skip(1) =~= exc_model.skip(ei as int + 1));
                }
                let es = buffer_inlays.inlays_per_excerpts[ei].1.ordered_elements();
                let ghost ids_start = ids@;
                let mut k: usize = 0;
                while k < es.len()
                    invariant
                        0 <= k <= es@.len(),
                        ids@ == ids_start + entry_ids(es@).take(k as int),
                    decreases es@.len() - k,
                {
                    proof {
                        assert(entry_ids(es@).take(k as int + 1) =~= entry_ids(es@).take(
                            k as int,
                        ).push(es@[k as int].1.0));
                    }
                    let id = es[k].1.0;
                    ids.push(id);
                    k = k + 1;
                }
                proof {
                    assert(entry_ids(es@).take(es@.len() as int) =~= entry_ids(es@));
                    assert(ids@ =~= ids_start + entry_ids(exc_model[ei as int].1));
                    assert(ids@ + excerpts_ids(exc_model.skip(ei as int + 1)) + buffers_ids(
                        bufs0.skip(bi as int + 1),
                    ) =~= ids_start + excerpts_ids(exc_model.skip(ei as int)) + buffers_ids(
                        bufs0.skip(bi as int + 1),
                    ));
                }
                ei = ei + 1;
            }
            proof {
                assert(excerpts_ids(exc_model.skip(exc_model.len() as int)) =~= Seq::<
                    InlayId,
                >::empty());
                assert(excerpts_ids(exc_model.skip(exc_model.len() as int)).len() == 0);
                assert(ids@ + buffers_ids(bufs0.skip(bi as int + 1)) =~= ids@ + excerpts_ids(
                    exc_model.skip(exc_model.len() as int),
                ) + buffers_ids(bufs0.skip(bi as int + 1)));
            }
            bi = bi + 1;
        }
        proof {
            assert(buffers_ids(bufs0.skip(bufs0.len() as int)).len() == 0);
            assert(ids@ =~= buffers_ids(bufs0));
        }
        self.inlays_per_buffer = Vec::new();
        proof {
            assert(self@.buffers =~= Seq::<(u64, BufferModel)>::empty());
        }
        ids
    }

    /// Recomputes the visible-kind set from `inlay_hint_settings` and
    /// returns the splice that hides newly hidden kinds and re-exposes
    /// newly shown ones under their existing ids and anchors.  The stored
    /// content is untouched: no re-fetch and no new ids.
    pub fn apply_settings(&mut self, inlay_hint_settings: InlayHints) -> (r: InlaySplice)
        ensures
            ({
                let new_allowed = spec_allowed_inlay_hint_types(inlay_hint_settings);
                let hidden = kinds_diff(old(self)@.allowed, new_allowed);
                let shown = kinds_diff(new_allowed, old(self)@.allowed);
                let out = settings_buffers(old(self)@.buffers, hidden, shown);
                &&& r.to_remove@ == out.to_remove
                &&& r.to_insert@ == out.to_insert
                &&& final(self)@.buffers == old(self)@.buffers
                &&& final(self)@.allowed == new_allowed
                &&& final(self)@.next_id == old(self)@.next_id
            }),
    {
        let new_allowed = allowed_inlay_hint_types(inlay_hint_settings);
        let hidden = HintKindSet {
            types: self.allowed_hint_kinds.types && !new_allowed.types,
            parameters: self.allowed_hint_kinds.parameters && !new_allowed.parameters,
            others: self.allowed_hint_kinds.others && !new_allowed.others,
        };
        let shown = HintKindSet {
            types: new_allowed.types && !self.allowed_hint_kinds.types,
            parameters: new_allowed.parameters && !self.allowed_hint_kinds.parameters,
            others: new_allowed.others && !self.allowed_hint_kinds.others,
        };
        let ghost bufs0 = self@.buffers;
        let ghost out = settings_buffers(bufs0, hidden, shown);
        let mut rem: Vec<InlayId> = Vec::new();
        let mut ins: Vec<(InlayId, Anchor, InlayHint)> = Vec::new();
        proof {
            assert(bufs0.skip(0) =~= bufs0);
            assert(rem@ + settings_buffers(bufs0, hidden, shown).to_remove =~= out.to_remove);
            assert(ins@ + settings_buffers(bufs0, hidden, shown).to_insert =~= out.to_insert);
        }
        let mut bi: usize = 0;
        while bi < self.inlays_per_buffer.len()
            invariant
                0 <= bi <= self.inlays_per_buffer@.len(),
                self@.buffers == bufs0,
                out == settings_buffers(bufs0, hidden, shown),
                rem@ + settings_buffers(bufs0.skip(bi as int), hidden, shown).to_remove
                    == out.to_remove,
                ins@ + settings_buffers(bufs0.skip(bi as int), hidden, shown).to_insert
                    == out.to_insert,
            decreases self.inlays_per_buffer@.len() - bi,
        {
            proof {
                assert(bufs0[bi as int].1 == self.inlays_per_buffer@[bi as int].1@);
                assert(bufs0.skip(bi as int)[0] == bufs0[bi as int]);
                assert(bufs0.skip(bi as int).skip(1) =~= bufs0.skip(bi as int + 1));
            }
            let buffer_inlays = &self.inlays_per_buffer[bi].1;
            let ghost exc_model = bufs0[bi as int].1.excerpts;
            let ghost rem_b = rem@;
            let ghost ins_b = ins@;
            proof {
                assert(exc_model.skip(0) =~= exc_model);
            }
            let mut ei: usize = 0;
            while ei < buffer_inlays.inlays_per_excerpts.len()
                invariant
                    0 <= ei <= buffer_inlays.inlays_per_excerpts@.len(),
                    exc_model == buffer_inlays@.excerpts,
                    rem@ + settings_excerpts(exc_model.skip(ei as int), hidden, shown).to_remove
                        == rem_b + settings_excerpts(exc_model, hidden, shown).to_remove,
                    ins@ + settings_excerpts(exc_model.skip(ei as int), hidden, shown).to_insert
                        == ins_b + settings_excerpts(exc_model, hidden, shown).to_insert,
                decreases buffer_inlays.inlays_per_excerpts@.len() - ei,
            {
                proof {
                    assert(exc_model[ei as int].1
                        == buffer_inlays.inlays_per_excerpts@[ei as int].1@);
                    assert(exc_model.skip(ei as int)[0] == exc_model[ei as int]);
                    assert(exc_model.skip(ei as int).skip(1) =~= exc_model.skip(ei as int + 1));
                }
                let es = buffer_inlays.inlays_per_excerpts[ei].1.ordered_elements();
                let ghost es_model = exc_model[ei as int].1;
                let ghost rem_e = rem@;
                let ghost ins_e = ins@;
                proof {
                    assert(es_model.skip(0) =~= es_model);
                }
                let mut k: usize = 0;
                while k < es.len()
                    invariant
                        0 <= k <= es@.len(),
                        es@ == es_model,
                        rem@ + settings_entries(es_model.skip(k as int), hidden, shown).to_remove
                            == rem_e + settings_entries(es_model, hidden, shown).to_remove,
                        ins@ + settings_entries(es_model.skip(k as int), hidden, shown).to_insert
                            == ins_e + settings_entries(es_model, hidden, shown).to_insert,
                    decreases es@.len() - k,
                {
                    proof {
                        assert(es_model.skip(k as int)[0] == es_model[k as int]);
                        assert(es_model.skip(k as int).skip(1) =~= es_model.skip(k as int + 1));
                    }
                    let kind = es[k].1.1.kind;
                    if hidden.contains(kind) {
                        proof {
                            assert(rem@.push(es_model[k as int].1.0) + settings_entries(
                                es_model.skip(k as int + 1),
                                hidden,
                                shown,
                            ).to_remove =~= rem@ + settings_entries(
                                es_model.skip(k as int),
                                hidden,
                                shown,
                            ).to_remove);
                        }
                        let id = es[k].1.0;
                        rem.push(id);
                    } else if shown.contains(kind) {
                        proof {
                            assert(ins@.push(
                                (es_model[k as int].1.0, es_model[k as int].0, es_model[k as int].1.1),
                            ) + settings_entries(es_model.skip(k as int + 1), hidden, shown).to_insert
                                =~= ins@ + settings_entries(
                                es_model.skip(k as int),
                                hidden,
                                shown,
                            ).to_insert);
                        }
                        let id = es[k].1.0;
                        let a = es[k].0;
                        let h = es[k].1.1.duplicate();
                        ins.push((id, a, h));
                    }
                    k = k + 1;
                }
                proof {
                    assert(settings_entries(es_model.skip(es_model.len() as int), hidden, shown)
                        .to_remove.len() == 0);
                    assert(settings_entries(es_model.skip(es_model.len() as int), hidden, shown)
                        .to_insert.len() == 0);
                    assert(rem@ =~= rem_e + settings_entries(es_model, hidden, shown).to_remove);
                    assert(ins@ =~= ins_e + settings_entries(es_model, hidden, shown).to_insert);
                    assert(rem@ + settings_excerpts(exc_model.skip(ei as int + 1), hidden, shown)
                        .to_remove =~= rem_e + settings_excerpts(
                        exc_model.skip(ei as int),
                        hidden,
                        shown,
                    ).to_remove);
                    assert(ins@ + settings_excerpts(exc_model.skip(ei as int + 1), hidden, shown)
                        .to_insert =~= ins_e + settings_excerpts(
                        exc_model.skip(ei as int),
                        hidden,
                        shown,
                    ).to_insert);
                }
                ei = ei + 1;
            }
            proof {
                assert(settings_excerpts(exc_model.skip(exc_model.len() as int), hidden, shown)
                    .to_remove.len() == 0);
                assert(settings_excerpts(exc_model.skip(exc_model.len() as int), hidden, shown)
                    .to_insert.len() == 0);
                assert(rem@ =~= rem_b + settings_excerpts(exc_model, hidden, shown).to_remove);
                assert(ins@ =~= ins_b + settings_excerpts(exc_model, hidden, shown).to_insert);
                assert(rem@ + settings_buffers(bufs0.skip(bi as int + 1), hidden, shown).to_remove
                    =~= rem_b + settings_buffers(bufs0.skip(bi as int), hidden, shown).to_remove);
                assert(ins@ + settings_buffers(bufs0.skip(bi as int + 1), hidden, shown).to_insert
                    =~= ins_b + settings_buffers(bufs0.skip(bi as int), hidden, shown).to_insert);
            }
            bi = bi + 1;
        }
        proof {
            assert(settings_buffers(bufs0.skip(bufs0.len() as int), hidden, shown).to_remove.len()
                == 0);
            assert(settings_buffers(bufs0.skip(bufs0.len() as int), hidden, shown).to_insert.len()
                == 0);
            assert(rem@ =~= out.to_remove);
            assert(ins@ =~= out.to_insert);
        }
        self.allowed_hint_kinds = new_allowed;
        InlaySplice { to_remove: rem, to_insert: ins }
    }

    /// Merges a fetched batch into the cache and returns the splice for
    /// the view: fresh hints inserted under new ids, vanished or changed
    /// hints removed, unchanged hints untouched; buffers absent from the
    /// batch are purged; insertions are filtered by the visible kinds.
    pub fn apply_fetch_inlays(&mut self, fetched: Vec<(u64, BufferBatch)>) -> (r: InlaySplice)
        requires
            old(self)@.next_id + batch_hint_count(batch_model(fetched@)) <= usize::MAX,
        ensures
            ({
                let out = merge_batch(old(self)@, batch_model(fetched@));
                &&& final(self)@ == out.cache
                &&& r.to_remove@ == out.to_remove
                &&& r.to_insert@ == out.to_insert
            }),
    {
        let ghost c0 = self@;
        let ghost bm = batch_model(fetched@);
        let ghost s_full = merge_batch_buffers(c0.buffers, c0.next_id, bm);
        let mut rem: Vec<InlayId> = Vec::new();
        let mut ins: Vec<(InlayId, Anchor, InlayHint)> = Vec::new();
        proof {
            assert(bm.skip(0) =~= bm);
        }
        let mut k: usize = 0;
        while k < fetched.len()
            invariant
                0 <= k <= fetched@.len(),
                bm == batch_model(fetched@),
                s_full == merge_batch_buffers(c0.buffers, c0.next_id, bm),
                self@.allowed == c0.allowed,
                self@.next_id + batch_hint_count(bm.skip(k as int)) <= usize::MAX,
                s_full.buffers == merge_batch_buffers(
                    self@.buffers,
                    self@.next_id,
                    bm.skip(k as int),
                ).buffers,
                s_full.next_id == merge_batch_buffers(
                    self@.buffers,
                    self@.next_id,
                    bm.skip(k as int),
                ).next_id,
                s_full.to_remove == rem@ + merge_batch_buffers(
                    self@.buffers,
                    self@.next_id,
                    bm.skip(k as int),
                ).to_remove,
                s_full.to_insert == ins@ + merge_batch_buffers(
                    self@.buffers,
                    self@.next_id,
                    bm.skip(k as int),
                ).to_insert,
            decreases fetched@.len() - k,
        {
            let ghost bufs_pre = self@.buffers;
            let ghost next_pre = self@.next_id;
            let ghost rest = merge_batch_buffers(bufs_pre, next_pre, bm.skip(k as int));
            proof {
                assert(bm[k as int] == (fetched@[k as int].0, fetched@[k as int].1@));
                assert(bm.skip(k as int)[0] == bm[k as int]);
                assert(bm.skip(k as int).skip(1) =~= bm.skip(k as int + 1));
            }
            let bid = fetched[k].0;
            let ghost step1 = merge_one_buffer(bufs_pre, next_pre, bid, bm[k as int].1);
            proof {
                lemma_assoc_idx(bufs_pre, bid);
                lemma_assoc_idx_keys_eq(self.inlays_per_buffer@, bufs_pre, bid);
            }
            let found = assoc_find(&self.inlays_per_buffer, bid);
            let ghost bufs1 = if assoc_contains(bufs_pre, bid) {
                bufs_pre
            } else {
                bufs_pre.push(
                    (bid, BufferModel { version: bm[k as int].1.version, excerpts: Seq::empty() }),
                )
            };
            proof {
                lemma_assoc_idx(bufs1, bid);
                if !assoc_contains(bufs_pre, bid) {
                    assert(bufs1[bufs_pre.len() as int].0 == bid);
                    assert(assoc_contains(bufs1, bid));
                    let w = assoc_idx(bufs1, bid);
                    if w < bufs_pre.len() {
                        assert(bufs1[w] == bufs_pre[w]);
                        assert(false);
                    }
                    assert(w == bufs_pre.len());
                }
            }
            let (bi, mut buffer_inlays) = match found {
                Some(i) => {
                    proof {
                        assert(bufs_pre[i as int] == (
                            self.inlays_per_buffer@[i as int].0,
                            self.inlays_per_buffer@[i as int].1@,
                        ));
                    }
                    let removed = self.inlays_per_buffer.remove(i);
                    (i, removed.1)
                },
                None => {
                    (
                        self.inlays_per_buffer.len(),
                        BufferInlays {
                            buffer_version: fetched[k].1.buffer_version,
                            inlays_per_excerpts: Vec::new(),
                        },
                    )
                },
            };
            proof {
                if !assoc_contains(bufs_pre, bid) {
                    assert(buffer_inlays@.excerpts =~= Seq::<
                        (u64, Seq<(Anchor, (InlayId, InlayHint))>),
                    >::empty());
                }
                assert(buffer_inlays@ == bufs1[bi as int].1);
                assert(batch_hint_count(bm.skip(k as int)) == buffer_hint_count(
                    bm[k as int].1.excerpts,
                ) + batch_hint_count(bm.skip(k as int + 1)));
            }
            let next2 = merge_buffer(
                &mut buffer_inlays,
                &fetched[k].1,
                self.next_inlay_id,
                &mut rem,
                &mut ins,
            );
            self.next_inlay_id = next2;
            self.inlays_per_buffer.insert(bi, (bid, buffer_inlays));
            proof {
                let step = merge_buffer_excerpts(
                    bufs1[bi as int].1,
                    next_pre,
                    bm[k as int].1.version,
                    bm[k as int].1.excerpts,
                );
                assert(self@.buffers =~= bufs1.update(bi as int, (bid, step.buffer)));
                assert(self@.buffers == step1.buffers);
                assert(self@.next_id == step1.next_id);
                lemma_buffer_excerpts_next_bound(
                    bufs1[bi as int].1,
                    next_pre,
                    bm[k as int].1.version,
                    bm[k as int].1.excerpts,
                );
                let rest2 = merge_batch_buffers(self@.buffers, self@.next_id, bm.skip(k as int + 1));
                assert(rest == BatchStep {
                    buffers: rest2.buffers,
                    next_id: rest2.next_id,
                    to_remove: step1.to_remove + rest2.to_remove,
                    to_insert: step1.to_insert + rest2.to_insert,
                });
                assert(s_full.to_remove =~= rem@ + rest2.to_remove);
                assert(s_full.to_insert =~= ins@ + rest2.to_insert);
            }
            k = k + 1;
        }
        proof {
            assert(bm.skip(bm.len() as int).len() == 0);
            assert(s_full.buffers == self@.buffers);
            assert(s_full.next_id == self@.next_id);
            assert(s_full.to_remove =~= rem@);
            assert(s_full.to_insert =~= ins@);
        }
        // Purge the buffers the batch does not mention.
        let ghost p_full = purge_buffers(self@.buffers, bm);
        let ghost rem_p0 = rem@;
        proof {
            assert(self@.buffers.take(0) + purge_buffers(self@.buffers.skip(0), bm).buffers
                =~= purge_buffers(self@.buffers, bm).buffers) by {
                assert(self@.buffers.skip(0) =~= self@.buffers);
                assert(self@.buffers.take(0).len() == 0);
            }
            assert(self@.buffers.skip(0) =~= self@.buffers);
        }
        let mut pi: usize = 0;
        while pi < self.inlays_per_buffer.len()
            invariant
                0 <= pi <= self.inlays_per_buffer@.len(),
                bm == batch_model(fetched@),
                self@.allowed == c0.allowed,
                self@.next_id == s_full.next_id,
                ins@ == s_full.to_insert,
                p_full.buffers == self@.buffers.take(pi as int) + purge_buffers(
                    self@.buffers.skip(pi as int),
                    bm,
                ).buffers,
                rem_p0 + p_full.to_remove == rem@ + purge_buffers(
                    self@.buffers.skip(pi as int),
                    bm,
                ).to_remove,
            decreases self.inlays_per_buffer@.len() - pi,
        {
            let ghost cur = self@.buffers;
            proof {
                assert(cur[pi as int] == (
                    self.inlays_per_buffer@[pi as int].0,
                    self.inlays_per_buffer@[pi as int].1@,
                ));
                assert(cur.skip(pi as int)[0] == cur[pi as int]);
                assert(cur.skip(pi as int).skip(1) =~= cur.skip(pi as int + 1));
                lemma_assoc_idx_keys_eq(fetched@, bm, self.inlays_per_buffer@[pi as int].0);
                lemma_assoc_idx(fetched@, self.inlays_per_buffer@[pi as int].0);
            }
            let key = self.inlays_per_buffer[pi].0;
            let in_batch = assoc_find(&fetched, key);
            if in_batch.is_some() {
                proof {
                    assert(assoc_contains(bm, cur[pi as int].0));
                    assert(cur.take(pi as int + 1) =~= cur.take(pi as int).push(cur[pi as int]));
                    assert(cur.take(pi as int) + (seq![cur[pi as int]] + purge_buffers(
                        cur.skip(pi as int + 1),
                        bm,
                    ).buffers) =~= cur.take(pi as int + 1) + purge_buffers(
                        cur.skip(pi as int + 1),
                        bm,
                    ).buffers);
                }
                pi = pi + 1;
            } else {
                proof {
                    assert(!assoc_contains(bm, cur[pi as int].0));
                }
                let removed = self.inlays_per_buffer.remove(pi);
                collect_buffer_ids(&removed.1, &mut rem);
                proof {
                    assert(self@.buffers =~= cur.remove(pi as int));
                    assert(self@.buffers.take(pi as int) =~= cur.take(pi as int));
                    assert(self@.buffers.skip(pi as int) =~= cur.skip(pi as int + 1));
                }
            }
        }
        proof {
            assert(purge_buffers(self@.buffers.skip(self@.buffers.len() as int), bm).buffers.len()
                == 0);
            assert(purge_buffers(self@.buffers.skip(self@.buffers.len() as int), bm).to_remove.len()
                == 0);
            assert(p_full.buffers =~= self@.buffers.take(self@.buffers.len() as int));
            assert(self@.buffers.take(self@.buffers.len() as int) =~= self@.buffers);
            assert(rem@ =~= rem_p0 + p_full.to_remove);
        }
        // Expose only the insertions whose kind is currently visible.
        let ghost ins_all = ins@;
        let mut ins_f: Vec<(InlayId, Anchor, InlayHint)> = Vec::new();
        proof {
            assert(ins_all.skip(0) =~= ins_all);
            assert(ins_f@ + filter_inserts(ins_all, c0.allowed) =~= filter_inserts(
                ins_all,
                c0.allowed,
            ));
        }
        let mut q: usize = 0;
        while q < ins.len()
            invariant
                0 <= q <= ins@.len(),
                ins@ == ins_all,
                self@.allowed == c0.allowed,
                filter_inserts(ins_all, c0.allowed) == ins_f@ + filter_inserts(
                    ins_all.skip(q as int),
                    c0.allowed,
                ),
            decreases ins@.len() - q,
        {
            proof {
                assert(ins_all.skip(q as int)[0] == ins_all[q as int]);
                assert(ins_all.skip(q as int).skip(1) =~= ins_all.skip(q as int + 1));
            }
            let kind = ins[q].2.kind;
            if self.allowed_hint_kinds.contains(kind) {
                proof {
                    assert(ins_f@.push(ins_all[q as int]) + filter_inserts(
                        ins_all.skip(q as int + 1),
                        c0.allowed,
                    ) =~= ins_f@ + filter_inserts(ins_all.skip(q as int), c0.allowed));
                }
                let id = ins[q].0;
                let a = ins[q].1;
                let h = ins[q].2.duplicate();
                ins_f.push((id, a, h));
            }
            q = q + 1;
        }
        proof {
            assert(filter_inserts(ins_all.skip(ins_all.len() as int), c0.allowed).len() == 0);
            assert(ins_f@ =~= filter_inserts(ins_all, c0.allowed));
        }
        InlaySplice { to_remove: rem, to_insert: ins_f }
    }

    /// Joins the settled queries of one fetch round into a batch, grouped
    /// by buffer, and merges it into the cache.  Skipped queries mark
    /// their excerpt "no change", failed queries are excluded without
    /// affecting the rest.  An empty batch returns an empty splice
    /// without touching cache state.
    pub fn fetch_inlays(&mut self, results: Vec<InlayFetchResult>) -> (r: InlaySplice)
        requires
            old(self)@.next_id + batch_hint_count(
                group_results(Seq::empty(), results@),
            ) <= usize::MAX,
        ensures
            ({
                let batch = group_results(Seq::empty(), results@);
                if batch.len() == 0 {
                    &&& final(self)@ == old(self)@
                    &&& r.to_remove@.len() == 0
                    &&& r.to_insert@.len() == 0
                } else {
                    let out = merge_batch(old(self)@, batch);
                    &&& final(self)@ == out.cache
                    &&& r.to_remove@ == out.to_remove
                    &&& r.to_insert@ == out.to_insert
                }
            }),
    {
        let ghost batch_full = group_results(Seq::empty(), results@);
        let mut batch: Vec<(u64, BufferBatch)> = Vec::new();
        proof {
            assert(results@.skip(0) =~= results@);
            assert(batch_model(batch@) =~= Seq::<(u64, BatchModel)>::empty());
        }
        let mut i: usize = 0;
        while i < results.len()
            invariant
                0 <= i <= results@.len(),
                batch_full == group_results(Seq::empty(), results@),
                batch_full == group_results(batch_model(batch@), results@.skip(i as int)),
            decreases results@.len() - i,
        {
            let ghost acc = batch_model(batch@);
            proof {
                assert(results@.skip(i as int)[0] == results@[i as int]);
                assert(results@.skip(i as int).skip(1) =~= results@.skip(i as int + 1));
            }
            let r_i = &results[i];
            match &r_i.outcome {
                InlayFetchOutcome::Failed => {
                    proof {
                        assert(group_into(acc, results@[i as int]) == acc);
                    }
                },
                _ => {
                    let bid = r_i.query.buffer_id;
                    let eid = r_i.query.excerpt_id;
                    proof {
                        lemma_assoc_idx(acc, bid);
                        lemma_assoc_idx_keys_eq(batch@, acc, bid);
                    }
                    let found = assoc_find(&batch, bid);
                    let ghost acc1 = if assoc_contains(acc, bid) {
                        acc
                    } else {
                        acc.push(
                            (
                                bid,
                                BatchModel {
                                    version: results@[i as int].query.buffer_version,
                                    excerpts: Seq::empty(),
                                },
                            ),
                        )
                    };
                    proof {
                        lemma_assoc_idx(acc1, bid);
                        if !assoc_contains(acc, bid) {
                            assert(acc1[acc.len() as int].0 == bid);
                            assert(assoc_contains(acc1, bid));
                            let w = assoc_idx(acc1, bid);
                            if w < acc.len() {
                                assert(acc1[w] == acc[w]);
                                assert(false);
                            }
                        }
                    }
                    let (bi, mut bb) = match found {
                        Some(idx) => {
                            proof {
                                assert(acc[idx as int] == (
                                    batch@[idx as int].0,
                                    batch@[idx as int].1@,
                                ));
                            }
                            let removed = batch.remove(idx);
                            (idx, removed.1)
                        },
                        None => {
                            (
                                batch.len(),
                                BufferBatch {
                                    buffer_version: r_i.query.buffer_version,
                                    excerpts: Vec::new(),
                                },
                            )
                        },
                    };
                    proof {
                        if !assoc_contains(acc, bid) {
                            assert(bb@.excerpts =~= Seq::<
                                (u64, Option<Seq<(Anchor, InlayHint)>>),
                            >::empty());
                        }
                        assert(bb@ == acc1[bi as int].1);
                    }
                    // The excerpt's contribution: "no change" for a
                    // skipped query, an ordered index for a settled one.
                    let entry: Option<OrderedByAnchorOffset<InlayHint>> = match &r_i.outcome {
                        InlayFetchOutcome::Skipped => None,
                        InlayFetchOutcome::Fetched(hints) => {
                            let stamp = r_i.query.buffer_version;
                            let mut index: OrderedByAnchorOffset<InlayHint> =
                                OrderedByAnchorOffset::new();
                            proof {
                                assert(hints@.take(0).len() == 0);
                                assert(index@ =~= build_index(hints@.take(0), stamp));
                            }
                            let mut h: usize = 0;
                            while h < hints.len()
                                invariant
                                    0 <= h <= hints@.len(),
                                    index.well_formed(),
                                    index@ == build_index(hints@.take(h as int), stamp),
                                decreases hints@.len() - h,
                            {
                                proof {
                                    assert(hints@.take(h as int + 1).last() == hints@[h as int]);
                                    assert(hints@.take(h as int + 1).take(h as int) =~= hints@.take(
                                        h as int,
                                    ));
                                }
                                let offset = hints[h].0;
                                let hint = hints[h].1.duplicate();
                                index.add(Anchor { offset, timestamp: stamp }, hint);
                                h = h + 1;
                            }
                            proof {
                                assert(hints@.take(hints@.len() as int) =~= hints@);
                            }
                            Some(index)
                        },
                        InlayFetchOutcome::Failed => None,
                    };
                    let ghost entry_model = match results@[i as int].outcome {
                        InlayFetchOutcome::Skipped => None,
                        InlayFetchOutcome::Fetched(hints) => Some(
                            build_index(hints@, results@[i as int].query.buffer_version),
                        ),
                        InlayFetchOutcome::Failed => None,
                    };
                    proof {
                        lemma_assoc_idx(acc1[bi as int].1.excerpts, eid);
                        lemma_assoc_idx_keys_eq(bb.excerpts@, acc1[bi as int].1.excerpts, eid);
                        if assoc_contains(acc1[bi as int].1.excerpts, eid) {
                            let j = assoc_idx(acc1[bi as int].1.excerpts, eid);
                            assert(acc1[bi as int].1.excerpts[j] == (
                                bb.excerpts@[j].0,
                                match bb.excerpts@[j].1 {
                                    Some(idx) => Some(idx@),
                                    None => None,
                                },
                            ));
                        }
                    }
                    let ef = assoc_find(&bb.excerpts, eid);
                    match ef {
                        Some(j) => {
                            bb.excerpts.set(j, (eid, entry));
                        },
                        None => {
                            bb.excerpts.push((eid, entry));
                        },
                    }
                    batch.insert(bi, (bid, bb));
                    proof {
                        let b = acc1[assoc_idx(acc1, bid)].1;
                        let j = assoc_idx(b.excerpts, eid);
                        let exc2 = if assoc_contains(b.excerpts, eid) {
                            b.excerpts.update(j, (eid, entry_model))
                        } else {
                            b.excerpts.push((eid, entry_model))
                        };
                        assert(bb@.excerpts =~= exc2);
                        assert(batch_model(batch@) =~= acc1.update(
                            bi as int,
                            (bid, BatchModel { version: b.version, excerpts: exc2 }),
                        ));
                        assert(batch_model(batch@) == group_into(acc, results@[i as int]));
                    }
                },
            }
            i = i + 1;
        }
        proof {
            assert(group_results(batch_model(batch@), results@.skip(results@.len() as int))
                == batch_model(batch@));
            assert(batch_model(batch@) == batch_full);
            assert(batch_model(batch@).len() == batch@.len());
        }
        if batch.len() == 0 {
            InlaySplice::empty()
        } else {
            self.apply_fetch_inlays(batch)
        }
    }
}

// ------------------------------------------------------------------
// Reconciliation of a fetched batch
// ------------------------------------------------------------------

/// What reconciling a batch against one per-buffer store yields: the
/// store's new value, the advanced id allocator, and the scheduled
/// removals and insertions.
pub struct BufferStep {
    pub buffer: BufferModel,
    pub next_id: nat,
    pub to_remove: Seq<InlayId>,
    pub to_insert: Seq<(InlayId, Anchor, InlayHint)>,
}

/// What reconciling a whole batch yields over all per-buffer stores.
pub struct BatchStep {
    pub buffers: Seq<(u64, BufferModel)>,
    pub next_id: nat,
    pub to_remove: Seq<InlayId>,
    pub to_insert: Seq<(InlayId, Anchor, InlayHint)>,
}

/// Reconciles one excerpt of a batch against a per-buffer store.
///
/// A skipped excerpt (`None`) contributes nothing.  A fetched excerpt is
/// re-checked for staleness against the current store: if the store is
/// already at or past the batch's version and holds an index for the
/// excerpt, the late result is discarded.  Otherwise the fetched hints are
/// merge-joined against the excerpt's current entries, the resulting
/// entries replace the excerpt's index (creating it on first fetch), and
/// the version stamp advances to the batch's version.
pub open spec fn merge_one_excerpt(
    bm: BufferModel,
    next: nat,
    batch_version: u64,
    excerpt_id: u64,
    fetch: Option<Seq<(Anchor, InlayHint)>>,
) -> BufferStep {
    match fetch {
        None => BufferStep { buffer: bm, next_id: next, to_remove: Seq::empty(), to_insert: Seq::empty() },
        Some(raw) => {
            if bm.version >= batch_version && assoc_contains(bm.excerpts, excerpt_id) {
                BufferStep {
                    buffer: bm,
                    next_id: next,
                    to_remove: Seq::empty(),
                    to_insert: Seq::empty(),
                }
            } else {
                let i = assoc_idx(bm.excerpts, excerpt_id);
                let old_entries = if assoc_contains(bm.excerpts, excerpt_id) {
                    bm.excerpts[i].1
                } else {
                    Seq::empty()
                };
                let m = merge_seqs(old_entries, raw, next);
                let new_version = if bm.version >= batch_version {
                    bm.version
                } else {
                    batch_version
                };
                let new_excerpts = if assoc_contains(bm.excerpts, excerpt_id) {
                    bm.excerpts.update(i, (excerpt_id, m.entries))
                } else {
                    bm.excerpts.push((excerpt_id, m.entries))
                };
                BufferStep {
                    buffer: BufferModel { version: new_version, excerpts: new_excerpts },
                    next_id: m.next_id,
                    to_remove: m.to_remove,
                    to_insert: m.to_insert,
                }
            }
        },
    }
}

/// Reconciles, in order, all excerpts a batch holds for one buffer.
pub open spec fn merge_buffer_excerpts(
    bm: BufferModel,
    next: nat,
    batch_version: u64,
    exc: Seq<(u64, Option<Seq<(Anchor, InlayHint)>>)>,
) -> BufferStep
    decreases exc.len(),
{
    if exc.len() == 0 {
        BufferStep { buffer: bm, next_id: next, to_remove: Seq::empty(), to_insert: Seq::empty() }
    } else {
        let s1 = merge_one_excerpt(bm, next, batch_version, exc[0].0, exc[0].1);
        let rest = merge_buffer_excerpts(s1.buffer, s1.next_id, batch_version, exc.skip(1));
        BufferStep {
            buffer: rest.buffer,
            next_id: rest.next_id,
            to_remove: s1.to_remove + rest.to_remove,
            to_insert: s1.to_insert + rest.to_insert,
        }
    }
}

/// Reconciles one buffer of a batch against the cache's stores: a buffer
/// not cached yet gets a fresh, empty store stamped with the batch's
/// version, then the batch's excerpts are merged into the store.
pub open spec fn merge_one_buffer(
    bufs: Seq<(u64, BufferModel)>,
    next: nat,
    buffer_id: u64,
    bb: BatchModel,
) -> BatchStep {
    let bufs1 = if assoc_contains(bufs, buffer_id) {
        bufs
    } else {
        bufs.push((buffer_id, BufferModel { version: bb.version, excerpts: Seq::empty() }))
    };
    let i = assoc_idx(bufs1, buffer_id);
    let step = merge_buffer_excerpts(bufs1[i].1, next, bb.version, bb.excerpts);
    BatchStep {
        buffers: bufs1.update(i, (buffer_id, step.buffer)),
        next_id: step.next_id,
        to_remove: step.to_remove,
        to_insert: step.to_insert,
    }
}

/// Reconciles, in order, every buffer of a batch.
pub open spec fn merge_batch_buffers(
    bufs: Seq<(u64, BufferModel)>,
    next: nat,
    batch: Seq<(u64, BatchModel)>,
) -> BatchStep
    decreases batch.len(),
{
    if batch.len() == 0 {
        BatchStep { buffers: bufs, next_id: next, to_remove: Seq::empty(), to_insert: Seq::empty() }
    } else {
        let s1 = merge_one_buffer(bufs, next, batch[0].0, batch[0].1);
        let rest = merge_batch_buffers(s1.buffers, s1.next_id, batch.skip(1));
        BatchStep {
            buffers: rest.buffers,
            next_id: rest.next_id,
            to_remove: s1.to_remove + rest.to_remove,
            to_insert: s1.to_insert + rest.to_insert,
        }
    }
}

/// What the purge of buffers absent from the batch yields.
pub struct PurgeOut {
    pub buffers: Seq<(u64, BufferModel)>,
    pub to_remove: Seq<InlayId>,
}

/// Buffers present in the cache but absent from the batch entirely are
/// no longer relevant: their stores are dropped and every id they held is
/// scheduled for removal.
pub open spec fn purge_buffers(
    bufs: Seq<(u64, BufferModel)>,
    batch: Seq<(u64, BatchModel)>,
) -> PurgeOut
    decreases bufs.len(),
{
    if bufs.len() == 0 {
        PurgeOut { buffers: Seq::empty(), to_remove: Seq::empty() }
    } else {
        let rest = purge_buffers(bufs.skip(1), batch);
        if assoc_contains(batch, bufs[0].0) {
            PurgeOut { buffers: seq![bufs[0]] + rest.buffers, to_remove: rest.to_remove }
        } else {
            PurgeOut {
                buffers: rest.buffers,
                to_remove: excerpts_ids(bufs[0].1.excerpts) + rest.to_remove,
            }
        }
    }
}

/// Insertions filtered by the currently visible kinds; removals are never
/// filtered.
pub open spec fn filter_inserts(
    ins: Seq<(InlayId, Anchor, InlayHint)>,
    allowed: HintKindSet,
) -> Seq<(InlayId, Anchor, InlayHint)>
    decreases ins.len(),
{
    if ins.len() == 0 {
        Seq::empty()
    } else if allowed.spec_contains(ins[0].2@.kind) {
        seq![ins[0]] + filter_inserts(ins.skip(1), allowed)
    } else {
        filter_inserts(ins.skip(1), allowed)
    }
}

/// What reconciling a whole fetched batch does to the cache and schedules
/// for the view.
pub struct FetchOut {
    pub cache: CacheModel,
    pub to_remove: Seq<InlayId>,
    pub to_insert: Seq<(InlayId, Anchor, InlayHint)>,
}

/// The reconciliation of a fetched batch: merge every buffer of the batch,
/// purge the buffers the batch does not mention, and expose only the
/// insertions whose kind is currently visible.
pub open spec fn merge_batch(c: CacheModel, batch: Seq<(u64, BatchModel)>) -> FetchOut {
    let s = merge_batch_buffers(c.buffers, c.next_id, batch);
    let p = purge_buffers(s.buffers, batch);
    FetchOut {
        cache: CacheModel { buffers: p.buffers, allowed: c.allowed, next_id: s.next_id },
        to_remove: s.to_remove + p.to_remove,
        to_insert: filter_inserts(s.to_insert, c.allowed),
    }
}

/// How many hints the batch fetched for one buffer.
pub open spec fn buffer_hint_count(exc: Seq<(u64, Option<Seq<(Anchor, InlayHint)>>)>) -> nat
    decreases exc.len(),
{
    if exc.len() == 0 {
        0
    } else {
        (match exc[0].1 {
            Some(raw) => raw.len(),
            None => 0,
        }) + buffer_hint_count(exc.skip(1))
    }
}

/// How many hints the whole batch fetched.
pub open spec fn batch_hint_count(batch: Seq<(u64, BatchModel)>) -> nat
    decreases batch.len(),
{
    if batch.len() == 0 {
        0
    } else {
        buffer_hint_count(batch[0].1.excerpts) + batch_hint_count(batch.skip(1))
    }
}

/// Reconciling a buffer's excerpts advances the id allocator by at most
/// one id per fetched hint, and never moves it backward.
pub proof fn lemma_buffer_excerpts_next_bound(
    bm: BufferModel,
    next: nat,
    batch_version: u64,
    exc: Seq<(u64, Option<Seq<(Anchor, InlayHint)>>)>,
)
    ensures
        next <= merge_buffer_excerpts(bm, next, batch_version, exc).next_id <= next
            + buffer_hint_count(exc),
    decreases exc.len(),
{
    if exc.len() == 0 {
    } else {
        let s1 = merge_one_excerpt(bm, next, batch_version, exc[0].0, exc[0].1);
        match exc[0].1 {
            None => {},
            Some(raw) => {
                if !(bm.version >= batch_version && assoc_contains(bm.excerpts, exc[0].0)) {
                    let old_entries = if assoc_contains(bm.excerpts, exc[0].0) {
                        bm.excerpts[assoc_idx(bm.excerpts, exc[0].0)].1
                    } else {
                        Seq::empty()
                    };
                    crate::merge::lemma_merge_next_bound(old_entries, raw, next);
                }
            },
        }
        lemma_buffer_excerpts_next_bound(s1.buffer, s1.next_id, batch_version, exc.skip(1));
    }
}

/// Merges one buffer's part of a batch into its per-buffer store.
///
/// Returns the advanced id allocator and appends the removal and
/// insertion instructions to the two accumulators.
fn merge_buffer(
    buffer: &mut BufferInlays,
    batch: &BufferBatch,
    next_id: usize,
    rem: &mut Vec<InlayId>,
    ins: &mut Vec<(InlayId, Anchor, InlayHint)>,
) -> (r: usize)
    requires
        next_id + buffer_hint_count(batch@.excerpts) <= usize::MAX,
    ensures
        ({
            let step = merge_buffer_excerpts(old(buffer)@, next_id as nat, batch@.version, batch@.excerpts);
            &&& final(buffer)@ == step.buffer
            &&& r as nat == step.next_id
            &&& final(rem)@ == old(rem)@ + step.to_remove
            &&& final(ins)@ == old(ins)@ + step.to_insert
        }),
{
    let ghost excm = batch@.excerpts;
    let ghost full = merge_buffer_excerpts(old(buffer)@, next_id as nat, batch@.version, excm);
    let ghost rem0 = rem@;
    let ghost ins0 = ins@;
    let bv = batch.buffer_version;
    let mut next: usize = next_id;
    let mut e: usize = 0;
    proof {
        assert(excm.skip(0) =~= excm);
    }
    while e < batch.excerpts.len()
        invariant
            0 <= e <= batch.excerpts@.len(),
            excm == batch@.excerpts,
            bv == batch@.version,
            full == merge_buffer_excerpts(old(buffer)@, next_id as nat, batch@.version, excm),
            next + buffer_hint_count(excm.skip(e as int)) <= usize::MAX,
            full.buffer == merge_buffer_excerpts(buffer@, next as nat, bv, excm.skip(e as int)).buffer,
            full.next_id == merge_buffer_excerpts(buffer@, next as nat, bv, excm.skip(e as int)).next_id,
            rem0 + full.to_remove == rem@ + merge_buffer_excerpts(buffer@, next as nat, bv, excm.skip(e as int)).to_remove,
            ins0 + full.to_insert == ins@ + merge_buffer_excerpts(buffer@, next as nat, bv, excm.skip(e as int)).to_insert,
        decreases batch.excerpts@.len() - e,
    {
        let ghost bm_cur = buffer@;
        let ghost rest = merge_buffer_excerpts(bm_cur, next as nat, bv, excm.skip(e as int));
        proof {
            assert(excm[e as int] == (
                batch.excerpts@[e as int].0,
                match batch.excerpts@[e as int].1 {
                    Some(idx) => Some(idx@),
                    None => None,
                },
            ));
            assert(excm.skip(e as int)[0] == excm[e as int]);
            assert(excm.skip(e as int).skip(1) =~= excm.skip(e as int + 1));
        }
        let eid = batch.excerpts[e].0;
        let ghost step1 = merge_one_excerpt(bm_cur, next as nat, bv, eid, excm[e as int].1);
        match &batch.excerpts[e].1 {
            None => {
                proof {
                    assert(step1.buffer == bm_cur && step1.next_id == next as nat);
                    assert(step1.to_remove.len() == 0 && step1.to_insert.len() == 0);
                    assert(rest.to_remove =~= step1.to_remove + merge_buffer_excerpts(
                        bm_cur, next as nat, bv, excm.skip(e as int + 1)).to_remove);
                    assert(rest.to_remove =~= merge_buffer_excerpts(
                        bm_cur, next as nat, bv, excm.skip(e as int + 1)).to_remove);
                    assert(rest.to_insert =~= merge_buffer_excerpts(
                        bm_cur, next as nat, bv, excm.skip(e as int + 1)).to_insert);
                }
            },
            Some(raw) => {
                proof {
                    lemma_assoc_idx(bm_cur.excerpts, eid);
                    lemma_assoc_idx_keys_eq(buffer.inlays_per_excerpts@, bm_cur.excerpts, eid);
                }
                let exc_found = assoc_find(&buffer.inlays_per_excerpts, eid);
                let up_to_date = buffer.buffer_version >= bv && exc_found.is_some();
                if up_to_date {
                    proof {
                        assert(assoc_contains(bm_cur.excerpts, eid));
                        assert(step1.buffer == bm_cur && step1.next_id == next as nat);
                        assert(step1.to_remove.len() == 0 && step1.to_insert.len() == 0);
                        assert(rest.to_remove =~= merge_buffer_excerpts(
                            bm_cur, next as nat, bv, excm.skip(e as int + 1)).to_remove);
                        assert(rest.to_insert =~= merge_buffer_excerpts(
                            bm_cur, next as nat, bv, excm.skip(e as int + 1)).to_insert);
                    }
                } else {
                    proof {
                        assert(buffer_hint_count(excm.skip(e as int)) >= raw@.len());
                    }
                    let ghost rem_pre = rem@;
                    let ghost ins_pre = ins@;
                    let ghost next_pre = next as nat;
                    proof {
                        if exc_found is Some {
                            let i = exc_found->0 as int;
                            assert(bm_cur.excerpts[i] == (
                                buffer.inlays_per_excerpts@[i].0,
                                buffer.inlays_per_excerpts@[i].1@,
                            ));
                        }
                    }
                    let (ei, old_index) = match exc_found {
                        Some(i) => {
                            let removed = buffer.inlays_per_excerpts.remove(i);
                            (i, removed.1)
                        },
                        None => (buffer.inlays_per_excerpts.len(), OrderedByAnchorOffset::new()),
                    };
                    let ghost old_entries = if assoc_contains(bm_cur.excerpts, eid) {
                        bm_cur.excerpts[assoc_idx(bm_cur.excerpts, eid)].1
                    } else {
                        Seq::<(Anchor, (InlayId, InlayHint))>::empty()
                    };
                    proof {
                        assert(old_index@ == old_entries);
                    }
                    let res = merge_excerpt(
                        old_index.ordered_elements(),
                        raw.ordered_elements(),
                        next,
                        rem,
                        ins,
                    );
                    let ghost m = merge_seqs(old_entries, raw@, next_pre);
                    let new_index: OrderedByAnchorOffset<(InlayId, InlayHint)> =
                        OrderedByAnchorOffset::from_ordered(res.0);
                    buffer.inlays_per_excerpts.insert(ei, (eid, new_index));
                    if bv > buffer.buffer_version {
                        buffer.buffer_version = bv;
                    }
                    next = res.1;
                    proof {
                        if assoc_contains(bm_cur.excerpts, eid) {
                            assert(buffer@.excerpts =~= bm_cur.excerpts.update(
                                ei as int, (eid, m.entries)));
                        } else {
                            assert(buffer@.excerpts =~= bm_cur.excerpts.push((eid, m.entries)));
                        }
                        assert(buffer@ == step1.buffer);
                        assert(next as nat == step1.next_id);
                        assert(rem@ =~= rem_pre + step1.to_remove);
                        assert(ins@ =~= ins_pre + step1.to_insert);
                        crate::merge::lemma_merge_next_bound(old_entries, raw@, next_pre);
                    }
                }
            },
        }
        proof {
            let rest2 = merge_buffer_excerpts(buffer@, next as nat, bv, excm.skip(e as int + 1));
            assert(rest == BufferStep {
                buffer: rest2.buffer,
                next_id: rest2.next_id,
                to_remove: step1.to_remove + rest2.to_remove,
                to_insert: step1.to_insert + rest2.to_insert,
            });
            assert(rem0 + full.to_remove =~= rem@ + rest2.to_remove);
            assert(ins0 + full.to_insert =~= ins@ + rest2.to_insert);
        }
        e = e + 1;
    }
    proof {
        assert(excm.skip(excm.len() as int).len() == 0);
        assert(rem0 + full.to_remove =~= rem@);
        assert(ins0 + full.to_insert =~= ins@);
    }
    next
}

/// Collects every id a per-buffer store holds, in excerpt order.
fn collect_buffer_ids(buffer: &BufferInlays, out: &mut Vec<InlayId>)
    ensures
        final(out)@ == old(out)@ + excerpts_ids(buffer@.excerpts),
{
    let ghost exc_model = buffer@.excerpts;
    let ghost out0 = out@;
    proof {
        assert(exc_model.skip(0) =~= exc_model);
    }
    let mut ei: usize = 0;
    while ei < buffer.inlays_per_excerpts.len()
        invariant
            0 <= ei <= buffer.inlays_per_excerpts@.len(),
            exc_model == buffer@.excerpts,
            out0 + excerpts_ids(exc_model) == out@ + excerpts_ids(exc_model.skip(ei as int)),
        decreases buffer.inlays_per_excerpts@.len() - ei,
    {
        proof {
            assert(exc_model[ei as int].1 == buffer.inlays_per_excerpts@[ei as int].1@);
            assert(exc_model.skip(ei as int)[0] == exc_model[ei as int]);
            assert(exc_model.skip(ei as int).skip(1) =~= exc_model.skip(ei as int + 1));
        }
        let es = buffer.inlays_per_excerpts[ei].1.ordered_elements();
        let ghost out_e = out@;
        let mut k: usize = 0;
        while k < es.len()
            invariant
                0 <= k <= es@.len(),
                out@ == out_e + entry_ids(es@).take(k as int),
            decreases es@.len() - k,
        {
            proof {
                assert(entry_ids(es@).take(k as int + 1) =~= entry_ids(es@).take(k as int).push(
                    es@[k as int].1.0,
                ));
            }
            let id = es[k].1.0;
            out.push(id);
            k = k + 1;
        }
        proof {
            assert(entry_ids(es@).take(es@.len() as int) =~= entry_ids(es@));
            assert(out@ =~= out_e + entry_ids(exc_model[ei as int].1));
            assert(out0 + excerpts_ids(exc_model) =~= out@ + excerpts_ids(
                exc_model.skip(ei as int + 1),
            ));
        }
        ei = ei + 1;
    }
    proof {
        assert(excerpts_ids(exc_model.skip(exc_model.len() as int)).len() == 0);
        assert(out@ =~= out0 + excerpts_ids(exc_model));
    }
}

// ------------------------------------------------------------------
// Visibility changes
// ------------------------------------------------------------------

/// The kinds in `a` but not in `b`.
pub open spec fn kinds_diff(a: HintKindSet, b: HintKindSet) -> HintKindSet {
    HintKindSet {
        types: a.types && !b.types,
        parameters: a.parameters && !b.parameters,
        others: a.others && !b.others,
    }
}

/// What a visibility change schedules for the view.
pub struct SettingsOut {
    pub to_remove: Seq<InlayId>,
    pub to_insert: Seq<(InlayId, Anchor, InlayHint)>,
}

/// The splice contribution of one excerpt's entries under a visibility
/// change: newly hidden kinds are removed, newly shown kinds are inserted
/// under their existing ids and anchors, all other entries are untouched.
pub open spec fn settings_entries(
    es: Seq<(Anchor, (InlayId, InlayHint))>,
    hidden: HintKindSet,
    shown: HintKindSet,
) -> SettingsOut
    decreases es.len(),
{
    if es.len() == 0 {
        SettingsOut { to_remove: Seq::empty(), to_insert: Seq::empty() }
    } else {
        let rest = settings_entries(es.skip(1), hidden, shown);
        if hidden.spec_contains(es[0].1.1@.kind) {
            SettingsOut { to_remove: seq![es[0].1.0] + rest.to_remove, to_insert: rest.to_insert }
        } else if shown.spec_contains(es[0].1.1@.kind) {
            SettingsOut {
                to_remove: rest.to_remove,
                to_insert: seq![(es[0].1.0, es[0].0, es[0].1.1)] + rest.to_insert,
            }
        } else {
            rest
        }
    }
}

/// The splice contribution of one buffer's excerpts.
pub open spec fn settings_excerpts(
    exc: Seq<(u64, Seq<(Anchor, (InlayId, InlayHint))>)>,
    hidden: HintKindSet,
    shown: HintKindSet,
) -> SettingsOut
    decreases exc.len(),
{
    if exc.len() == 0 {
        SettingsOut { to_remove: Seq::empty(), to_insert: Seq::empty() }
    } else {
        let here = settings_entries(exc[0].1, hidden, shown);
        let rest = settings_excerpts(exc.skip(1), hidden, shown);
        SettingsOut {
            to_remove: here.to_remove + rest.to_remove,
            to_insert: here.to_insert + rest.to_insert,
        }
    }
}

/// The splice of a visibility change over the whole cache.
pub open spec fn settings_buffers(
    bufs: Seq<(u64, BufferModel)>,
    hidden: HintKindSet,
    shown: HintKindSet,
) -> SettingsOut
    decreases bufs.len(),
{
    if bufs.len() == 0 {
        SettingsOut { to_remove: Seq::empty(), to_insert: Seq::empty() }
    } else {
        let here = settings_excerpts(bufs[0].1.excerpts, hidden, shown);
        let rest = settings_buffers(bufs.skip(1), hidden, shown);
        SettingsOut {
            to_remove: here.to_remove + rest.to_remove,
            to_insert: here.to_insert + rest.to_insert,
        }
    }
}

/// `assoc_idx` and `assoc_contains` look only at keys, so they agree on
/// two lists whose keys agree pointwise.
pub proof fn lemma_assoc_idx_keys_eq<V, W>(s: Seq<(u64, V)>, t: Seq<(u64, W)>, k: u64)
    requires
        s.len() == t.len(),
        forall|i: int| 0 <= i < s.len() ==> (#[trigger] s[i]).0 == (#[trigger] t[i]).0,
    ensures
        assoc_idx(s, k) == assoc_idx(t, k),
        assoc_contains(s, k) == assoc_contains(t, k),
    decreases s.len(),
{
    if s.len() == 0 {
    } else if s[0].0 == k {
        assert((s[0]).0 == k);
        assert((t[0]).0 == k);
        assert(assoc_contains(s, k));
        assert(assoc_contains(t, k));
    } else {
        assert((t[0]).0 != k);
        assert(forall|i: int| 0 <= i < s.skip(1).len() ==> #[trigger] s.skip(1)[i] == s[i + 1]);
        assert(forall|i: int| 0 <= i < t.skip(1).len() ==> #[trigger] t.skip(1)[i] == t[i + 1]);
        lemma_assoc_idx_keys_eq(s.skip(1), t.skip(1), k);
        if assoc_contains(s, k) {
            let w = choose|i: int| 0 <= i < s.len() && (#[trigger] s[i]).0 == k;
            assert(s.skip(1)[w - 1].0 == k);
            assert(assoc_contains(s.skip(1), k));
        }
        if assoc_contains(t, k) {
            let w = choose|i: int| 0 <= i < t.len() && (#[trigger] t[i]).0 == k;
            assert(t.skip(1)[w - 1].0 == k);
            assert(assoc_contains(t.skip(1), k));
        }
        if assoc_contains(s.skip(1), k) {
            let w = choose|i: int| 0 <= i < s.skip(1).len() && (#[trigger] s.skip(1)[i]).0 == k;
            assert(s[w + 1].0 == k);
        }
        if assoc_contains(t.skip(1), k) {
            let w = choose|i: int| 0 <= i < t.skip(1).len() && (#[trigger] t.skip(1)[i]).0 == k;
            assert(t[w + 1].0 == k);
        }
    }
}

} // verus!
