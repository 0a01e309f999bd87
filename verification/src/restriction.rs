use vstd::prelude::*;

verus! {

/// Marker: the restricted endpoint carries at most one edge of the kind.
pub struct One;

/// Marker: the restricted endpoint carries any number of edges of the kind,
/// with no duplicate partner.
pub struct Many;

/// A cardinality restriction for one endpoint of a relation kind: either
/// [`One`] or [`Many`].
pub trait Restriction {
    /// Whether this restriction admits more than one edge on its endpoint.
    spec fn many() -> bool;

    /// Runtime tag for this restriction, used when a store is configured.
    fn is_many() -> (b: bool)
        ensures
            b == Self::many(),
    ;
}

impl Restriction for One {
    open spec fn many() -> bool {
        false
    }

    fn is_many() -> bool {
        false
    }
}

impl Restriction for Many {
    open spec fn many() -> bool {
        true
    }

    fn is_many() -> bool {
        true
    }
}

} // verus!
