//! Position anchors and the ordered index that keeps hints sorted by
//! position.
//!
//! An [`Anchor`] is a stable reference to a position in a buffer's edit
//! history, modelled as the pair of the character offset and the logical
//! creation stamp of the anchor.  The pair gives a total order over anchors
//! within one excerpt ([`AnchorKey`]); the creation stamp disambiguates
//! same-offset anchors created at different times.
//!
//! [`OrderedByAnchorOffset`] maps anchor keys to payloads, sorted ascending
//! by key with unique keys, like an ordered map.  It is used both for
//! cached `(InlayId, InlayHint)` pairs and transiently for raw fetched
//! hints before a merge.

use vstd::prelude::*;

verus! {

/// A stable reference into a buffer's edit history: a character offset
/// together with the logical stamp of the buffer version the anchor was
/// created at.
#[derive(Debug, Clone, Copy, PartialEq, Eq, Structural)]
pub struct Anchor {
    pub offset: usize,
    pub timestamp: u64,
}

/// The ordering key of an [`Anchor`]: offset first, creation stamp second.
#[derive(Debug, Clone, Copy, PartialEq, Eq, Structural)]
pub struct AnchorKey {
    pub offset: usize,
    pub version: u64,
}

/// The key under which an anchor is indexed.
pub open spec fn key_of(a: Anchor) -> AnchorKey {
    AnchorKey { offset: a.offset, version: a.timestamp }
}

/// Strict lexicographic order on anchor keys: by offset, then by creation
/// stamp.
pub open spec fn key_lt(a: AnchorKey, b: AnchorKey) -> bool {
    a.offset < b.offset || (a.offset == b.offset && a.version < b.version)
}

/// Executable comparison deciding [`key_lt`].
pub fn key_lt_exec(a: AnchorKey, b: AnchorKey) -> (r: bool)
    ensures
        r == key_lt(a, b),
{
    a.offset < b.offset || (a.offset == b.offset && a.version < b.version)
}

impl Anchor {
    /// The key under which this anchor is indexed.
    pub fn key(&self) -> (r: AnchorKey)
        ensures
            r == key_of(*self),
    {
        AnchorKey { offset: self.offset, version: self.timestamp }
    }
}

/// The entries are sorted strictly ascending by anchor key, so keys are
/// unique.
pub open spec fn entries_sorted<T>(s: Seq<(Anchor, T)>) -> bool {
    forall|i: int, j: int|
        0 <= i < j < s.len() ==> key_lt(key_of(#[trigger] s[i].0), key_of(#[trigger] s[j].0))
}

/// Where a new entry with anchor `a` lands in `s`: sorted insertion,
/// replacing an entry whose key equals `key_of(a)`.
pub open spec fn spec_add<T>(s: Seq<(Anchor, T)>, a: Anchor, t: T) -> Seq<(Anchor, T)>
    decreases s.len(),
{
    if s.len() == 0 {
        seq![(a, t)]
    } else if key_lt(key_of(a), key_of(s[0].0)) {
        seq![(a, t)] + s
    } else if key_of(a) == key_of(s[0].0) {
        seq![(a, t)] + s.skip(1)
    } else {
        seq![s[0]] + spec_add(s.skip(1), a, t)
    }
}

/// A container mapping each anchor key to a payload, iterated in ascending
/// key order.
#[derive(Debug, Clone)]
pub struct OrderedByAnchorOffset<T> {
    entries: Vec<(Anchor, T)>,
}

impl<T> View for OrderedByAnchorOffset<T> {
    type V = Seq<(Anchor, T)>;

    closed spec fn view(&self) -> Seq<(Anchor, T)> {
        self.entries@
    }
}

impl<T> OrderedByAnchorOffset<T> {
    /// The container's invariant: entries sorted strictly ascending by key.
    pub open spec fn well_formed(&self) -> bool {
        entries_sorted(self@)
    }

    /// An empty index.
    pub fn new() -> (r: Self)
        ensures
            r@ == Seq::<(Anchor, T)>::empty(),
            r.well_formed(),
    {
        OrderedByAnchorOffset { entries: Vec::new() }
    }

    /// Inserts `t` under the key of `anchor`, keeping ascending key order;
    /// an entry already stored under the same key is replaced.
    pub fn add(&mut self, anchor: Anchor, t: T)
        requires
            old(self).well_formed(),
        ensures
            final(self).well_formed(),
            final(self)@ == spec_add(old(self)@, anchor, t),
    {
        let key = anchor.key();
        let ghost s = self.entries@;
        let mut i: usize = 0;
        while i < self.entries.len() && key_lt_exec(self.entries[i].0.key(), key)
            invariant
                0 <= i <= s.len(),
                self.entries@ == s,
                key == key_of(anchor),
                forall|j: int| 0 <= j < i ==> key_lt(key_of(#[trigger] s[j].0), key),
            decreases s.len() - i,
        {
            i = i + 1;
        }
        proof {
            lemma_spec_add_at(s, anchor, t, i as int);
            lemma_spec_add_sorted(s, anchor, t);
        }
        if i < self.entries.len() && self.entries[i].0.offset == key.offset
            && self.entries[i].0.timestamp == key.version {
            self.entries.set(i, (anchor, t));
            assert(self.entries@ =~= spec_add(s, anchor, t));
        } else {
            self.entries.insert(i, (anchor, t));
            assert(self.entries@ =~= spec_add(s, anchor, t));
        }
    }

    /// Wraps a list of entries, in the order given, as an index.
    pub fn from_ordered(entries: Vec<(Anchor, T)>) -> (r: Self)
        ensures
            r@ == entries@,
    {
        OrderedByAnchorOffset { entries }
    }

    /// Hands out the entries in ascending key order, consuming the index.
    pub fn into_ordered_elements(self) -> (r: Vec<(Anchor, T)>)
        ensures
            r@ == self@,
    {
        self.entries
    }

    /// The entries in ascending key order.
    pub fn ordered_elements(&self) -> (r: &Vec<(Anchor, T)>)
        ensures
            r@ == self@,
    {
        &self.entries
    }

    /// How many entries the index holds.
    pub fn len(&self) -> (r: usize)
        ensures
            r == self@.len(),
    {
        self.entries.len()
    }
}

/// Keys are totally ordered: two keys that are neither equal nor related by
/// `key_lt` one way are related the other way.
proof fn lemma_key_trichotomy(a: AnchorKey, b: AnchorKey)
    ensures
        key_lt(a, b) || key_lt(b, a) || a == b,
{
}

/// `spec_add` on a sorted sequence replaces the entry at the scan position
/// when the keys match, and inserts there otherwise.
proof fn lemma_spec_add_at<T>(s: Seq<(Anchor, T)>, a: Anchor, t: T, i: int)
    requires
        entries_sorted(s),
        0 <= i <= s.len(),
        forall|j: int| 0 <= j < i ==> key_lt(key_of(#[trigger] s[j].0), key_of(a)),
        i < s.len() ==> !key_lt(key_of(s[i].0), key_of(a)),
    ensures
        spec_add(s, a, t) == if i < s.len() && key_of(s[i].0) == key_of(a) {
            s.update(i, (a, t))
        } else {
            s.insert(i, (a, t))
        },
    decreases s.len(),
{
    if s.len() == 0 {
        assert(spec_add(s, a, t) =~= s.insert(0, (a, t)));
    } else if i == 0 {
        if key_lt(key_of(a), key_of(s[0].0)) {
            assert(spec_add(s, a, t) =~= s.insert(0, (a, t)));
        } else {
            lemma_key_trichotomy(key_of(a), key_of(s[0].0));
            assert(key_of(a) == key_of(s[0].0));
            assert(spec_add(s, a, t) =~= s.update(0, (a, t)));
        }
    } else {
        lemma_spec_add_at(s.skip(1), a, t, i - 1);
        assert(forall|j: int|
            0 <= j < i - 1 ==> key_lt(key_of(#[trigger] s.skip(1)[j].0), key_of(a)));
        assert(!key_lt(key_of(a), key_of(s[0].0)) && key_of(a) != key_of(s[0].0)) by {
            lemma_key_trichotomy(key_of(a), key_of(s[0].0));
        }
        if i < s.len() && key_of(s[i].0) == key_of(a) {
            assert(s.skip(1)[i - 1] == s[i]);
            assert(spec_add(s, a, t) =~= s.update(i, (a, t)));
        } else {
            assert(spec_add(s, a, t) =~= s.insert(i, (a, t)));
        }
    }
}

/// `spec_add` keeps the entries sorted.
proof fn lemma_spec_add_sorted<T>(s: Seq<(Anchor, T)>, a: Anchor, t: T)
    requires
        entries_sorted(s),
    ensures
        entries_sorted(spec_add(s, a, t)),
    decreases s.len(),
{
    if s.len() == 0 {
    } else if key_lt(key_of(a), key_of(s[0].0)) {
    } else if key_of(a) == key_of(s[0].0) {
    } else {
        lemma_spec_add_sorted(s.skip(1), a, t);
        lemma_key_trichotomy(key_of(a), key_of(s[0].0));
        let r = spec_add(s, a, t);
        let r1 = spec_add(s.skip(1), a, t);
        assert(forall|j: int| 0 <= j < r1.len() ==> r[j + 1] == r1[j]);
        assert forall|j: int| 0 <= j < r1.len() implies key_lt(key_of(r[0].0), key_of(#[trigger] r1[j].0)) by {
            lemma_spec_add_member(s.skip(1), a, t, j);
        }
    }
}

/// Every entry of `spec_add(s, a, t)` is either `(a, t)` or an entry of `s`.
proof fn lemma_spec_add_member<T>(s: Seq<(Anchor, T)>, a: Anchor, t: T, j: int)
    requires
        0 <= j < spec_add(s, a, t).len(),
    ensures
        spec_add(s, a, t)[j] == (a, t) || exists|k: int| 0 <= k < s.len() && s[k] == spec_add(s, a, t)[j],
    decreases s.len(),
{
    if s.len() == 0 {
    } else if key_lt(key_of(a), key_of(s[0].0)) {
    } else if key_of(a) == key_of(s[0].0) {
        if j > 0 {
            assert(s.skip(1)[j - 1] == s[j]);
        }
    } else {
        if j > 0 {
            lemma_spec_add_member(s.skip(1), a, t, j - 1);
            if spec_add(s.skip(1), a, t)[j - 1] != (a, t) {
                let k = choose|k: int|
                    0 <= k < s.skip(1).len() && s.skip(1)[k] == spec_add(s.skip(1), a, t)[j - 1];
                assert(s[k + 1] == spec_add(s, a, t)[j]);
            }
        }
    }
}

} // verus!
