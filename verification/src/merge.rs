//! The per-excerpt reconciliation step: an ascending merge-join between the
//! excerpt's cached ordered hints and the freshly fetched ordered hints.
//!
//! [`merge_seqs`] is the mathematical statement of the step; [`merge_excerpt`]
//! is the executable function proved equal to it.  The join walks both
//! sequences once, by offset:
//! - a new hint whose offset precedes every remaining old hint is inserted
//!   under a freshly allocated id;
//! - at equal offsets, identical content retains the old entry unchanged
//!   (no id churn), while changed content removes the old id and inserts the
//!   new content under a fresh id;
//! - an old hint with no counterpart in the fetch is removed;
//! - once one side is exhausted, the rest of the other side is inserted
//!   fresh, or removed, respectively.

use vstd::prelude::*;
use crate::anchors::Anchor;
use crate::hints::{InlayHint, InlayId};

verus! {

/// The outcome of merging one excerpt: the excerpt's new ordered entries,
/// the ids scheduled for removal, the insertions scheduled for the view,
/// and the id allocator's value after the merge.
pub struct ExcerptMerge {
    pub entries: Seq<(Anchor, (InlayId, InlayHint))>,
    pub to_remove: Seq<InlayId>,
    pub to_insert: Seq<(InlayId, Anchor, InlayHint)>,
    pub next_id: nat,
}

/// A freshly fetched hint enters under a newly allocated id.
pub open spec fn merge_insert(n: (Anchor, InlayHint), id: nat, rest: ExcerptMerge) -> ExcerptMerge {
    ExcerptMerge {
        entries: seq![(n.0, (InlayId(id as usize), n.1))] + rest.entries,
        to_remove: rest.to_remove,
        to_insert: seq![(InlayId(id as usize), n.0, n.1)] + rest.to_insert,
        next_id: rest.next_id,
    }
}

/// An old entry with no counterpart in the fetch is dropped and its id
/// scheduled for removal.
pub open spec fn merge_drop(e: (Anchor, (InlayId, InlayHint)), rest: ExcerptMerge) -> ExcerptMerge {
    ExcerptMerge {
        entries: rest.entries,
        to_remove: seq![e.1.0] + rest.to_remove,
        to_insert: rest.to_insert,
        next_id: rest.next_id,
    }
}

/// An old entry whose content the fetch reproduced is retained unchanged.
pub open spec fn merge_retain(e: (Anchor, (InlayId, InlayHint)), rest: ExcerptMerge) -> ExcerptMerge {
    ExcerptMerge {
        entries: seq![e] + rest.entries,
        to_remove: rest.to_remove,
        to_insert: rest.to_insert,
        next_id: rest.next_id,
    }
}

/// The ascending merge-join of the cached entries `old` and the fetched
/// hints `new`, allocating fresh ids from `next` upward.
pub open spec fn merge_seqs(
    old: Seq<(Anchor, (InlayId, InlayHint))>,
    new: Seq<(Anchor, InlayHint)>,
    next: nat,
) -> ExcerptMerge
    decreases old.len() + new.len(),
{
    if old.len() == 0 && new.len() == 0 {
        ExcerptMerge {
            entries: Seq::empty(),
            to_remove: Seq::empty(),
            to_insert: Seq::empty(),
            next_id: next,
        }
    } else if old.len() == 0 {
        merge_insert(new[0], next, merge_seqs(old, new.skip(1), next + 1))
    } else if new.len() == 0 {
        merge_drop(old[0], merge_seqs(old.skip(1), new, next))
    } else if new[0].0.offset < old[0].0.offset {
        merge_insert(new[0], next, merge_seqs(old, new.skip(1), next + 1))
    } else if new[0].0.offset == old[0].0.offset {
        if new[0].1@ == old[0].1.1@ {
            merge_retain(old[0], merge_seqs(old.skip(1), new.skip(1), next))
        } else {
            merge_drop(
                old[0],
                merge_insert(new[0], next, merge_seqs(old.skip(1), new.skip(1), next + 1)),
            )
        }
    } else {
        merge_drop(old[0], merge_seqs(old.skip(1), new, next))
    }
}

/// The merge advances the id allocator by at most one id per fetched hint,
/// and never moves it backward.
pub proof fn lemma_merge_next_bound(
    old_entries: Seq<(Anchor, (InlayId, InlayHint))>,
    new_entries: Seq<(Anchor, InlayHint)>,
    next: nat,
)
    ensures
        next <= merge_seqs(old_entries, new_entries, next).next_id <= next + new_entries.len(),
    decreases old_entries.len() + new_entries.len(),
{
    if old_entries.len() == 0 && new_entries.len() == 0 {
    } else if old_entries.len() == 0 {
        lemma_merge_next_bound(old_entries, new_entries.skip(1), next + 1);
    } else if new_entries.len() == 0 {
        lemma_merge_next_bound(old_entries.skip(1), new_entries, next);
    } else if new_entries[0].0.offset < old_entries[0].0.offset {
        lemma_merge_next_bound(old_entries, new_entries.skip(1), next + 1);
    } else if new_entries[0].0.offset == old_entries[0].0.offset {
        if new_entries[0].1@ == old_entries[0].1.1@ {
            lemma_merge_next_bound(old_entries.skip(1), new_entries.skip(1), next);
        } else {
            lemma_merge_next_bound(old_entries.skip(1), new_entries.skip(1), next + 1);
        }
    } else {
        lemma_merge_next_bound(old_entries.skip(1), new_entries, next);
    }
}

/// Merges the fetched hints of one excerpt into its cached entries.
///
/// Returns the excerpt's new entries and the advanced id allocator, and
/// appends the removal and insertion instructions to the two accumulators.
pub fn merge_excerpt(
    cached: &Vec<(Anchor, (InlayId, InlayHint))>,
    fetched: &Vec<(Anchor, InlayHint)>,
    next_id: usize,
    to_remove: &mut Vec<InlayId>,
    to_insert: &mut Vec<(InlayId, Anchor, InlayHint)>,
) -> (r: (Vec<(Anchor, (InlayId, InlayHint))>, usize))
    requires
        next_id + fetched@.len() <= usize::MAX,
    ensures
        r.0@ == merge_seqs(cached@, fetched@, next_id as nat).entries,
        r.1 as nat == merge_seqs(cached@, fetched@, next_id as nat).next_id,
        final(to_remove)@ == old(to_remove)@ + merge_seqs(cached@, fetched@, next_id as nat).to_remove,
        final(to_insert)@ == old(to_insert)@ + merge_seqs(cached@, fetched@, next_id as nat).to_insert,
{
    let ghost m_full = merge_seqs(cached@, fetched@, next_id as nat);
    let mut entries: Vec<(Anchor, (InlayId, InlayHint))> = Vec::new();
    let mut rem: Vec<InlayId> = Vec::new();
    let mut ins: Vec<(InlayId, Anchor, InlayHint)> = Vec::new();
    let mut next: usize = next_id;
    let mut i: usize = 0;
    let mut j: usize = 0;
    proof {
        assert(cached@.skip(0) =~= cached@);
        assert(fetched@.skip(0) =~= fetched@);
        assert(entries@ + m_full.entries =~= m_full.entries);
        assert(rem@ + m_full.to_remove =~= m_full.to_remove);
        assert(ins@ + m_full.to_insert =~= m_full.to_insert);
    }
    while i < cached.len() || j < fetched.len()
        invariant
            i <= cached@.len(),
            j <= fetched@.len(),
            next + (fetched@.len() - j) <= usize::MAX,
            m_full == merge_seqs(cached@, fetched@, next_id as nat),
            m_full.entries == entries@ + merge_seqs(cached@.skip(i as int), fetched@.skip(j as int), next as nat).entries,
            m_full.to_remove == rem@ + merge_seqs(cached@.skip(i as int), fetched@.skip(j as int), next as nat).to_remove,
            m_full.to_insert == ins@ + merge_seqs(cached@.skip(i as int), fetched@.skip(j as int), next as nat).to_insert,
            m_full.next_id == merge_seqs(cached@.skip(i as int), fetched@.skip(j as int), next as nat).next_id,
        decreases (cached@.len() - i) + (fetched@.len() - j),
    {
        let ghost old_rest = cached@.skip(i as int);
        let ghost new_rest = fetched@.skip(j as int);
        let ghost m_rest = merge_seqs(old_rest, new_rest, next as nat);
        if j >= fetched.len() {
            // The fetch is exhausted: the old entry has no counterpart.
            proof {
                assert(old_rest[0] == cached@[i as int]);
                assert(old_rest.skip(1) =~= cached@.skip(i as int + 1));
                assert(m_rest == merge_drop(old_rest[0], merge_seqs(cached@.skip(i as int + 1), new_rest, next as nat)));
                assert(rem@ + m_rest.to_remove =~= rem@.push(cached@[i as int].1.0) + merge_seqs(cached@.skip(i as int + 1), new_rest, next as nat).to_remove);
            }
            let id = cached[i].1.0;
            rem.push(id);
            i = i + 1;
        } else if i >= cached.len() || fetched[j].0.offset < cached[i].0.offset {
            // A new hint that did not exist before: insert it fresh.
            proof {
                assert(new_rest[0] == fetched@[j as int]);
                assert(new_rest.skip(1) =~= fetched@.skip(j as int + 1));
                if i < cached@.len() {
                    assert(old_rest[0] == cached@[i as int]);
                }
                assert(m_rest == merge_insert(new_rest[0], next as nat, merge_seqs(old_rest, fetched@.skip(j as int + 1), next as nat + 1)));
                let m_next = merge_seqs(old_rest, fetched@.skip(j as int + 1), next as nat + 1);
                assert(entries@ + m_rest.entries =~= entries@.push((fetched@[j as int].0, (InlayId(next), fetched@[j as int].1))) + m_next.entries);
                assert(ins@ + m_rest.to_insert =~= ins@.push((InlayId(next), fetched@[j as int].0, fetched@[j as int].1)) + m_next.to_insert);
            }
            let a = fetched[j].0;
            let h = fetched[j].1.duplicate();
            let h2 = fetched[j].1.duplicate();
            let id = InlayId(next);
            entries.push((a, (id, h)));
            ins.push((id, a, h2));
            next = next + 1;
            j = j + 1;
        } else if fetched[j].0.offset == cached[i].0.offset {
            proof {
                assert(new_rest[0] == fetched@[j as int]);
                assert(old_rest[0] == cached@[i as int]);
                assert(new_rest.skip(1) =~= fetched@.skip(j as int + 1));
                assert(old_rest.skip(1) =~= cached@.skip(i as int + 1));
            }
            if fetched[j].1.content_eq(&cached[i].1.1) {
                // Content identical: retain the old entry unchanged.
                proof {
                    let m_next = merge_seqs(cached@.skip(i as int + 1), fetched@.skip(j as int + 1), next as nat);
                    assert(m_rest == merge_retain(old_rest[0], m_next));
                    assert(entries@ + m_rest.entries =~= entries@.push(cached@[i as int]) + m_next.entries);
                }
                let a = cached[i].0;
                let id = cached[i].1.0;
                let h = cached[i].1.1.duplicate();
                entries.push((a, (id, h)));
                i = i + 1;
                j = j + 1;
            } else {
                // Content changed: remove the old id, insert the new
                // content under a fresh id.
                proof {
                    let m_next = merge_seqs(cached@.skip(i as int + 1), fetched@.skip(j as int + 1), next as nat + 1);
                    assert(m_rest == merge_drop(old_rest[0], merge_insert(new_rest[0], next as nat, m_next)));
                    assert(rem@ + m_rest.to_remove =~= rem@.push(cached@[i as int].1.0) + m_next.to_remove);
                    assert(entries@ + m_rest.entries =~= entries@.push((fetched@[j as int].0, (InlayId(next), fetched@[j as int].1))) + m_next.entries);
                    assert(ins@ + m_rest.to_insert =~= ins@.push((InlayId(next), fetched@[j as int].0, fetched@[j as int].1)) + m_next.to_insert);
                }
                let old_id = cached[i].1.0;
                rem.push(old_id);
                let a = fetched[j].0;
                let h = fetched[j].1.duplicate();
                let h2 = fetched[j].1.duplicate();
                let id = InlayId(next);
                entries.push((a, (id, h)));
                ins.push((id, a, h2));
                next = next + 1;
                i = i + 1;
                j = j + 1;
            }
        } else {
            // The old entry's offset precedes every remaining new hint:
            // it was dropped by the fetch.
            proof {
                assert(old_rest[0] == cached@[i as int]);
                assert(old_rest.skip(1) =~= cached@.skip(i as int + 1));
                assert(m_rest == merge_drop(old_rest[0], merge_seqs(cached@.skip(i as int + 1), new_rest, next as nat)));
                assert(rem@ + m_rest.to_remove =~= rem@.push(cached@[i as int].1.0) + merge_seqs(cached@.skip(i as int + 1), new_rest, next as nat).to_remove);
            }
            let id = cached[i].1.0;
            rem.push(id);
            i = i + 1;
        }
    }
    proof {
        assert(cached@.skip(i as int) =~= Seq::<(Anchor, (InlayId, InlayHint))>::empty());
        assert(fetched@.skip(j as int) =~= Seq::<(Anchor, InlayHint)>::empty());
        assert(m_full.entries =~= entries@);
        assert(m_full.to_remove =~= rem@);
        assert(m_full.to_insert =~= ins@);
    }
    to_remove.append(&mut rem);
    to_insert.append(&mut ins);
    (entries, next)
}

} // verus!
