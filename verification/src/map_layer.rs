//! What a node shape has to offer so that the tree engine can replace the
//! immediate children of one layer.

use vstd::prelude::*;

verus! {

/// One level of a recursive structure, over some representation of "a child".
///
/// A layer is described by two things: its frame, which is everything it
/// holds besides its children, and the sequence of its immediate children in
/// visiting order.
pub trait Layer: Sized {
    /// How this layer denotes a child.
    type Child;

    /// What a layer holds besides its children.
    type Frame;

    /// The data of this layer that is not a child.
    spec fn frame(&self) -> Self::Frame;

    /// The immediate children, in the one order in which they are visited.
    spec fn children(&self) -> Seq<Self::Child>;

    /// How many children a layer with this frame has.
    spec fn arity(frame: Self::Frame) -> nat;

    /// The frame decides how many children there are.
    proof fn lemma_arity(&self)
        ensures
            self.children().len() == Self::arity(self.frame()),
    ;

    /// The number of immediate children.
    fn child_count(&self) -> (count: usize)
        ensures
            count == self.children().len(),
    ;

    /// The children of a borrowed layer, copied out in visiting order.
    fn child_list(&self) -> (list: Vec<Self::Child>) where Self::Child: Copy
        ensures
            list@ == self.children(),
    ;
}

/// A layer whose children can be replaced by values of type `B`, consuming
/// the layer.
///
/// Mapping is offered in two halves, so that the caller can do work between
/// taking the old children out and putting the new ones in: `split` parts the
/// layer into its children and the rest, `build` joins such a rest and new
/// children.
pub trait MapLayer<B>: Layer {
    /// The same shape holding `B` where `Self` holds `Self::Child`.
    type To: Layer<Child = B, Frame = Self::Frame>;

    /// What is left of a layer when its children are taken out.
    type Rest;

    /// The frame that a rest stands for.
    spec fn rest_frame(rest: &Self::Rest) -> Self::Frame;

    /// Parts a layer into what holds its frame and its children in visiting
    /// order.
    fn split(self) -> (parts: (Self::Rest, Vec<Self::Child>))
        ensures
            Self::rest_frame(&parts.0) == self.frame(),
            parts.1@ == self.children(),
    ;

    /// Joins the rest of a layer and as many children as its frame takes
    /// into a layer.
    fn build(rest: Self::Rest, children: Vec<B>) -> (to: Self::To)
        requires
            children.len() == Self::arity(Self::rest_frame(&rest)),
        ensures
            to.frame() == Self::rest_frame(&rest),
            to.children() == children@,
    ;
}

/// A layer whose children can be replaced by values of type `B` while the
/// layer itself is only borrowed for `'a`; the result may keep borrowing the
/// frame.
pub trait MapLayerRef<'a, B>: Layer {
    /// The borrowed shape holding `B` in place of each child.
    type ToRef: Layer<Child = B, Frame = Self::Frame>;

    /// A layer with the frame of `self` and the given children in place of
    /// its own.
    fn build_ref(&'a self, children: Vec<B>) -> (to: Self::ToRef)
        requires
            children.len() == self.children().len(),
        ensures
            to.frame() == self.frame(),
            to.children() == children@,
    ;
}

/// Replaces every immediate child of `layer` by what `f` makes of it, in
/// visiting order, and leaves the frame untouched.
pub fn map_layer<L, B, F>(layer: L, mut f: F) -> (to: L::To) where
    L: MapLayer<B>,
    F: FnMut(L::Child) -> B,

    requires
        forall|p: int|
            0 <= p < layer.children().len() ==> f.requires((#[trigger] layer.children()[p],)),
    ensures
        to.frame() == layer.frame(),
        to.children().len() == layer.children().len(),
        forall|p: int|
            0 <= p < layer.children().len() ==> f.ensures(
                (layer.children()[p],),
                #[trigger] to.children()[p],
            ),
{
    proof {
        layer.lemma_arity();
    }
    let (rest, olds) = layer.split();
    let mut news: Vec<B> = Vec::new();
    let ghost reducer = f;
    for child in it: olds.into_iter()
        invariant
            f == reducer,
            it.seq() == layer.children(),
            news.len() == it.index(),
            forall|p: int|
                0 <= p < layer.children().len() ==> f.requires((#[trigger] layer.children()[p],)),
            forall|p: int|
                0 <= p < news.len() ==> f.ensures((layer.children()[p],), #[trigger] news@[p]),
    {
        news.push(f(child));
    }
    L::build(rest, news)
}

} // verus!
