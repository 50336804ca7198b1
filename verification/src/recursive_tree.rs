//! The flat store of a tree and what makes such a store well formed.

use crate::map_layer::Layer;
use crate::recursive_tree::arena_eval::ArenaIndex;
use vstd::prelude::*;

pub mod arena_eval;
pub mod depth;
pub mod expand;

verus! {

/// Whether `p` is the place of a child in the layer at position `i`.
pub open spec fn is_slot<U: Layer<Child = ArenaIndex>>(elems: Seq<U>, i: int, p: int) -> bool {
    0 <= i < elems.len() && 0 <= p < elems[i].children().len()
}

/// The index that the layer at position `i` holds for its child number `p`.
pub open spec fn child_at<U: Layer<Child = ArenaIndex>>(elems: Seq<U>, i: int, p: int) -> int {
    elems[i].children()[p].0 as int
}

/// The order that every store and every window into a store obeys.
///
/// `elems` are the layers from position `offset` of some store on. There is a
/// first layer, the root of what `elems` holds. Every child index points
/// behind the layer that holds it and inside `elems`, so all descendants of a
/// layer are stored after it. No index is held twice, so no layer has two
/// parents.
pub open spec fn well_formed<U: Layer<Child = ArenaIndex>>(elems: Seq<U>, offset: int) -> bool {
    &&& elems.len() > 0
    &&& forall|i: int, p: int|
        is_slot(elems, i, p) ==> offset + i < #[trigger] child_at(elems, i, p) < offset
            + elems.len()
    &&& forall|i: int, p: int, j: int, q: int|
        is_slot(elems, i, p) && is_slot(elems, j, q) && #[trigger] child_at(elems, i, p)
            == #[trigger] child_at(elems, j, q) ==> i == j && p == q
}

/// In a well-formed store no layer holds the index of the root.
pub proof fn lemma_root_unreferenced<U: Layer<Child = ArenaIndex>>(elems: Seq<U>, offset: int)
    requires
        well_formed(elems, offset),
    ensures
        forall|i: int, p: int| is_slot(elems, i, p) ==> #[trigger] child_at(elems, i, p) != offset,
{
}

/// What lies behind a position of a well-formed store is well formed again,
/// with that position as its offset.
pub proof fn lemma_suffix_well_formed<U: Layer<Child = ArenaIndex>>(
    elems: Seq<U>,
    offset: int,
    c: int,
)
    requires
        well_formed(elems, offset),
        offset <= c < offset + elems.len(),
    ensures
        well_formed(elems.subrange(c - offset, elems.len() as int), c),
{
    let sub = elems.subrange(c - offset, elems.len() as int);
    assert forall|i: int, p: int| is_slot(sub, i, p) implies c + i < #[trigger] child_at(
        sub,
        i,
        p,
    ) < c + sub.len() by {
        assert(is_slot(elems, i + c - offset, p));
        assert(child_at(sub, i, p) == child_at(elems, i + c - offset, p));
    }
    assert forall|i: int, p: int, j: int, q: int|
        is_slot(sub, i, p) && is_slot(sub, j, q) && #[trigger] child_at(sub, i, p)
            == #[trigger] child_at(sub, j, q) implies i == j && p == q by {
        assert(is_slot(elems, i + c - offset, p));
        assert(is_slot(elems, j + c - offset, q));
        assert(child_at(sub, i, p) == child_at(elems, i + c - offset, p));
        assert(child_at(sub, j, q) == child_at(elems, j + c - offset, q));
    }
}

/// A tree as one sequence of layers: every layer names its children by their
/// position in that sequence, and the root is the layer at position 0.
#[derive(Debug)]
pub struct RecursiveTree<U: Layer<Child = ArenaIndex>> {
    elems: Vec<U>,
}

/// A borrowed tree: all layers of a store, from the root on.
#[derive(Debug)]
pub struct RecursiveTreeRef<'a, U: Layer<Child = ArenaIndex>> {
    elems: &'a [U],
}

impl<U: Layer<Child = ArenaIndex>> View for RecursiveTree<U> {
    type V = Seq<U>;

    /// The layers in store order.
    closed spec fn view(&self) -> Seq<U> {
        self.elems@
    }
}

impl<U: Layer<Child = ArenaIndex>> RecursiveTree<U> {
    #[verifier::type_invariant]
    spec fn ordered(self) -> bool {
        well_formed(self.elems@, 0)
    }

    /// Takes layers that are in store order as a tree.
    pub(crate) fn from_layers(elems: Vec<U>) -> (tree: Self)
        requires
            well_formed(elems@, 0),
        ensures
            tree@ == elems@,
    {
        RecursiveTree { elems }
    }

    /// Gives the layers up, in store order.
    pub(crate) fn into_layers(self) -> (elems: Vec<U>)
        ensures
            elems@ == self@,
            well_formed(elems@, 0),
    {
        proof {
            use_type_invariant(&self);
        }
        self.elems
    }

    /// The layers in store order; the first one is the root.
    pub fn layers(&self) -> (elems: &[U])
        ensures
            elems@ == self@,
            well_formed(elems@, 0),
    {
        proof {
            use_type_invariant(self);
        }
        self.elems.as_slice()
    }

    /// The same tree, borrowed.
    pub fn as_ref(&self) -> (tree: RecursiveTreeRef<'_, U>)
        ensures
            tree@ == self@,
            well_formed(tree@, 0),
            tree@.len() <= usize::MAX,
    {
        proof {
            use_type_invariant(self);
            assert(self.elems.len() <= usize::MAX);
        }
        RecursiveTreeRef { elems: self.elems.as_slice() }
    }
}

impl<'a, U: Layer<Child = ArenaIndex>> View for RecursiveTreeRef<'a, U> {
    type V = Seq<U>;

    /// The layers in store order.
    closed spec fn view(&self) -> Seq<U> {
        self.elems@
    }
}

impl<'a, U: Layer<Child = ArenaIndex>> RecursiveTreeRef<'a, U> {
    #[verifier::type_invariant]
    spec fn ordered(self) -> bool {
        well_formed(self.elems@, 0)
    }

    /// The layers in store order; the first one is the root.
    pub fn layers(&self) -> (elems: &'a [U])
        ensures
            elems@ == self@,
            well_formed(elems@, 0),
    {
        proof {
            use_type_invariant(self);
        }
        self.elems
    }
}

} // verus!
