//! Document filters: which documents a query may return sentences from.
use vstd::prelude::*;

verus! {

/// Per-document metadata: small plain values, copied freely, with a default
/// for ids that no document has.
pub trait DocumentMetadata: Copy + Default {
    /// The metadata of an id that no document has: the type's default.
    spec fn absent() -> Self;

    fn absent_metadata() -> (r: Self)
        ensures
            r == Self::absent();
}

/// Decides, from a document's metadata, whether its sentences may match.
pub trait DocumentFilter<D> {
    /// Whether the filter lets a document with metadata `meta` through.
    spec fn accepts(&self, meta: D) -> bool;

    fn filter_document(&self, document_meta: &D) -> (r: bool)
        ensures
            r == self.accepts(*document_meta);

    /// `false` when the filter lets every document through, so that callers
    /// can skip it.
    fn needed(&self) -> (r: bool)
        ensures
            !r ==> forall|m: D| self.accepts(m);
}

/// The filter that lets every document through.
impl<D> DocumentFilter<D> for () {
    open spec fn accepts(&self, meta: D) -> bool {
        true
    }

    fn filter_document(&self, document_meta: &D) -> (r: bool) {
        true
    }

    fn needed(&self) -> (r: bool) {
        false
    }
}

} // verus!
