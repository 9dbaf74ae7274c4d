//! Hints, hint kinds, hint ids, visibility configuration, and splices.

use vstd::prelude::*;

verus! {

/// The kind of an inlay hint, as classified by the hint source.
#[derive(Debug, Clone, Copy, PartialEq, Eq, Hash, Structural)]
pub enum InlayHintKind {
    Type,
    Parameter,
    Other,
}

/// An externally supplied inline annotation: a kind and the display
/// content.
#[derive(Debug, Clone)]
pub struct InlayHint {
    pub kind: InlayHintKind,
    pub text: String,
}

/// The mathematical value of a hint: its kind and its content as a
/// character sequence.
pub struct HintModel {
    pub kind: InlayHintKind,
    pub text: Seq<char>,
}

impl View for InlayHint {
    type V = HintModel;

    open spec fn view(&self) -> HintModel {
        HintModel { kind: self.kind, text: self.text@ }
    }
}

impl InlayHint {
    /// An independent copy with the same kind and content.
    pub fn duplicate(&self) -> (r: InlayHint)
        ensures
            r == *self,
    {
        InlayHint { kind: self.kind, text: self.text.clone() }
    }

    /// Whether two hints carry the same kind and the same content.
    pub fn content_eq(&self, other: &InlayHint) -> (r: bool)
        ensures
            r == (self@ == other@),
    {
        let same = self.kind == other.kind && self.text == other.text;
        proof {
            if same {
                assert(self@ =~= other@);
            }
        }
        same
    }
}

/// A process-lifetime-unique, monotonically increasing identifier of a
/// cached hint instance; never reused, even across cache clears.
#[derive(Debug, Clone, Copy, PartialEq, Eq, PartialOrd, Ord, Hash, Structural)]
pub struct InlayId(pub usize);

/// The visibility configuration: three independent flags, one per hint
/// kind.
#[derive(Debug, Clone, Copy, PartialEq, Eq, Structural)]
pub struct InlayHints {
    pub show_type_hints: bool,
    pub show_parameter_hints: bool,
    pub show_other_hints: bool,
}

/// A set of hint kinds, used as the set of currently visible kinds.
#[derive(Debug, Clone, Copy, PartialEq, Eq, Structural)]
pub struct HintKindSet {
    pub types: bool,
    pub parameters: bool,
    pub others: bool,
}

impl HintKindSet {
    /// Whether `kind` is a member of the set.
    pub open spec fn spec_contains(&self, kind: InlayHintKind) -> bool {
        match kind {
            InlayHintKind::Type => self.types,
            InlayHintKind::Parameter => self.parameters,
            InlayHintKind::Other => self.others,
        }
    }

    /// Executable membership test.
    pub fn contains(&self, kind: InlayHintKind) -> (r: bool)
        ensures
            r == self.spec_contains(kind),
    {
        match kind {
            InlayHintKind::Type => self.types,
            InlayHintKind::Parameter => self.parameters,
            InlayHintKind::Other => self.others,
        }
    }
}

/// The set of hint kinds a visibility configuration allows.
pub open spec fn spec_allowed_inlay_hint_types(settings: InlayHints) -> HintKindSet {
    HintKindSet {
        types: settings.show_type_hints,
        parameters: settings.show_parameter_hints,
        others: settings.show_other_hints,
    }
}

/// Maps the three visibility flags onto the set of allowed hint kinds.
pub fn allowed_inlay_hint_types(settings: InlayHints) -> (r: HintKindSet)
    ensures
        r == spec_allowed_inlay_hint_types(settings),
{
    HintKindSet {
        types: settings.show_type_hints,
        parameters: settings.show_parameter_hints,
        others: settings.show_other_hints,
    }
}

/// Why the cache is being refreshed: a settings change, or a regular
/// re-fetch of the visible regions.
#[derive(Debug, Clone, Copy)]
pub enum InlayRefreshReason {
    Settings(InlayHints),
    Regular,
}

/// The instruction set handed to the view layer: ids to remove and
/// `(id, anchor, hint)` triples to insert.  Removals are applied before or
/// atomically with insertions.
#[derive(Debug)]
pub struct InlaySplice {
    pub to_remove: Vec<InlayId>,
    pub to_insert: Vec<(InlayId, crate::anchors::Anchor, InlayHint)>,
}

impl InlaySplice {
    /// A splice that instructs no change.
    pub fn empty() -> (r: InlaySplice)
        ensures
            r.to_remove@ == Seq::<InlayId>::empty(),
            r.to_insert@ == Seq::<(InlayId, crate::anchors::Anchor, InlayHint)>::empty(),
    {
        InlaySplice { to_remove: Vec::new(), to_insert: Vec::new() }
    }
}

} // verus!
