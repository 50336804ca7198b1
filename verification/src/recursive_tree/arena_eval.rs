//! A tree in an arena: every layer refers to its children by their position
//! in one vector, and a single pass from the last layer to the first reduces
//! the tree to a value.

use crate::map_layer::{Layer, MapLayer, MapLayerRef};
use crate::recursive_tree::{
    child_at, is_slot, lemma_suffix_well_formed, well_formed, RecursiveTree, RecursiveTreeRef,
};
use vstd::prelude::*;
use vstd::slice::slice_subrange;

verus! {

/// Marks a child inside a store: the position of the child's layer.
#[derive(Debug, Clone, Copy)]
pub struct ArenaIndex(pub usize);

impl ArenaIndex {
    /// The position of the root of every store.
    pub fn head() -> (idx: ArenaIndex)
        ensures
            idx.0 == 0,
    {
        ArenaIndex(0)
    }
}

/// What a window into a store shows.
pub struct OffsetView<U> {
    /// The layers of the window; the first is the root of the window.
    pub elems: Seq<U>,
    /// The position of the first layer in the store. The indices held by the
    /// layers are positions in the store, so they are read relative to it.
    pub offset: int,
}

/// What a window with cached context shows.
pub struct ContextView<U, Cached> {
    /// The layers of the window; the first is the root of the window.
    pub elems: Seq<U>,
    /// The position of the first layer in the store.
    pub offset: int,
    /// For each layer of the window, at the same place, the value cached for
    /// it, if there is one.
    pub context: Seq<Option<Cached>>,
}

/// A window into a borrowed store: the layers from some position on, and
/// that position.
#[derive(Debug)]
pub struct RecursiveTreeRefWithOffset<'a, U: Layer<Child = ArenaIndex>> {
    elems: &'a [U],
    offset: usize,
}

/// A window into a borrowed store together with the values cached for its
/// layers.
#[derive(Debug)]
pub struct RecursiveTreeRefWithOffsetAndContext<'a, U: Layer<Child = ArenaIndex>, Cached> {
    elems: &'a [U],
    offset: usize,
    context: &'a [Option<Cached>],
}

/// Whether a value is cached for every layer that some layer of the window
/// holds as a child.
pub open spec fn context_covers<U: Layer<Child = ArenaIndex>, Cached>(
    elems: Seq<U>,
    offset: int,
    context: Seq<Option<Cached>>,
) -> bool {
    &&& context.len() == elems.len()
    &&& forall|i: int, p: int|
        is_slot(elems, i, p) ==> (#[trigger] context[child_at(elems, i, p) - offset]) is Some
}

impl<'a, U: Layer<Child = ArenaIndex>> View for RecursiveTreeRefWithOffset<'a, U> {
    type V = OffsetView<U>;

    closed spec fn view(&self) -> OffsetView<U> {
        OffsetView { elems: self.elems@, offset: self.offset as int }
    }
}

impl<'a, U: Layer<Child = ArenaIndex>> RecursiveTreeRefWithOffset<'a, U> {
    #[verifier::type_invariant]
    spec fn ordered(self) -> bool {
        well_formed(self.elems@, self.offset as int)
    }

    /// The window that shows the layers `elems`, which stand at `offset` in
    /// their store.
    pub(crate) fn new(elems: &'a [U], offset: usize) -> (window: Self)
        requires
            well_formed(elems@, offset as int),
        ensures
            window@ == (OffsetView { elems: elems@, offset: offset as int }),
    {
        RecursiveTreeRefWithOffset { elems, offset }
    }

    /// The position in the store of the first layer of the window.
    pub fn offset(&self) -> (offset: usize)
        ensures
            offset == self@.offset,
    {
        self.offset
    }

    /// The layers of the window.
    pub fn layers(&self) -> (elems: &'a [U])
        ensures
            elems@ == self@.elems,
            well_formed(elems@, self@.offset),
    {
        proof {
            use_type_invariant(self);
        }
        self.elems
    }
}

impl<'a, U: Layer<Child = ArenaIndex>, Cached> View for RecursiveTreeRefWithOffsetAndContext<
    'a,
    U,
    Cached,
> {
    type V = ContextView<U, Cached>;

    closed spec fn view(&self) -> ContextView<U, Cached> {
        ContextView { elems: self.elems@, offset: self.offset as int, context: self.context@ }
    }
}

impl<'a, U: Layer<Child = ArenaIndex>, Cached> RecursiveTreeRefWithOffsetAndContext<
    'a,
    U,
    Cached,
> {
    #[verifier::type_invariant]
    spec fn ordered(self) -> bool {
        &&& well_formed(self.elems@, self.offset as int)
        &&& context_covers(self.elems@, self.offset as int, self.context@)
    }

    /// The window that shows the layers `elems`, which stand at `offset` in
    /// their store, with the values `context` cached for them.
    pub(crate) fn new(elems: &'a [U], offset: usize, context: &'a [Option<Cached>]) -> (window:
        Self)
        requires
            well_formed(elems@, offset as int),
            context_covers(elems@, offset as int, context@),
        ensures
            window@ == (ContextView {
                elems: elems@,
                offset: offset as int,
                context: context@,
            }),
    {
        RecursiveTreeRefWithOffsetAndContext { elems, offset, context }
    }

    /// The position in the store of the first layer of the window.
    pub fn offset(&self) -> (offset: usize)
        ensures
            offset == self@.offset,
    {
        self.offset
    }

    /// The layers of the window.
    pub fn layers(&self) -> (elems: &'a [U])
        ensures
            elems@ == self@.elems,
            well_formed(elems@, self@.offset),
    {
        proof {
            use_type_invariant(self);
        }
        self.elems
    }

    /// The cached values, one place for each layer of the window.
    pub fn context(&self) -> (context: &'a [Option<Cached>])
        ensures
            context@ == self@.context,
            context_covers(self@.elems, self@.offset, context@),
    {
        proof {
            use_type_invariant(self);
        }
        self.context
    }
}

/// Gives the root layer of a tree with a window into its substructure in
/// place of each child.
pub trait Head<'a, Unwrapped> {
    /// Whether `head` is the root layer of `self`, every child replaced by
    /// the window that begins at the child.
    spec fn is_head(&self, head: Unwrapped) -> bool;

    /// The root layer, every child replaced by the window that begins at the
    /// child. Nothing is reduced and no layer but the root is read.
    fn head(&'a self) -> (head: Unwrapped)
        ensures
            self.is_head(head),
    ;
}

impl<'a, U> Head<'a, <U as MapLayerRef<'a, RecursiveTreeRefWithOffset<'a, U>>>::ToRef>
    for RecursiveTree<U> where
    U: Layer<Child = ArenaIndex> + MapLayerRef<'a, RecursiveTreeRefWithOffset<'a, U>>,
 {
    open spec fn is_head(
        &self,
        head: <U as MapLayerRef<'a, RecursiveTreeRefWithOffset<'a, U>>>::ToRef,
    ) -> bool {
        &&& head.frame() == self@[0].frame()
        &&& head.children().len() == self@[0].children().len()
        &&& forall|p: int|
            0 <= p < head.children().len() ==> (#[trigger] head.children()[p])@ == (OffsetView {
                elems: self@.subrange(child_at(self@, 0, p), self@.len() as int),
                offset: child_at(self@, 0, p),
            })
    }

    fn head(&'a self) -> (head: <U as MapLayerRef<'a, RecursiveTreeRefWithOffset<'a, U>>>::ToRef) {
        let elems = self.layers();
        let root = &elems[0];
        let indices = root.child_list();
        let mut windows: Vec<RecursiveTreeRefWithOffset<'a, U>> = Vec::new();
        for p in 0..indices.len()
            invariant
                elems@ == self@,
                well_formed(elems@, 0),
                indices@ == elems@[0].children(),
                windows.len() == p,
                forall|q: int|
                    0 <= q < p ==> (#[trigger] windows@[q])@ == (OffsetView {
                        elems: self@.subrange(child_at(self@, 0, q), self@.len() as int),
                        offset: child_at(self@, 0, q),
                    }),
        {
            let c = indices[p].0;
            proof {
                assert(is_slot(elems@, 0, p as int));
                assert(c == child_at(elems@, 0, p as int));
                lemma_suffix_well_formed(elems@, 0, c as int);
            }
            windows.push(RecursiveTreeRefWithOffset::new(slice_subrange(elems, c, elems.len()), c));
        }
        root.build_ref(windows)
    }
}

/// Whether `w` is the layer at position `i` of the window with every child
/// replaced by the value that `vals` holds for it.
pub open spec fn handed<U, W, A>(elems: Seq<U>, offset: int, vals: Seq<A>, i: int, w: W) -> bool where
    U: Layer<Child = ArenaIndex>,
    W: Layer<Child = A, Frame = U::Frame>,
 {
    &&& w.frame() == elems[i].frame()
    &&& w.children().len() == elems[i].children().len()
    &&& forall|p: int|
        0 <= p < w.children().len() ==> #[trigger] w.children()[p] == vals[child_at(elems, i, p)
            - offset]
}

/// Whether `vals` holds at place `i` a value that `f` may make of the layer
/// at position `i` once its children are replaced by their values.
pub open spec fn reduced<U, W, A, F>(elems: Seq<U>, offset: int, f: F, vals: Seq<A>, i: int) -> bool where
    U: Layer<Child = ArenaIndex>,
    W: Layer<Child = A, Frame = U::Frame>,
    F: FnMut(W) -> A,
 {
    exists|w: W| handed(elems, offset, vals, i, w) && f.ensures((w,), vals[i])
}

/// Whether `vals` holds such a value for every position from `from` on.
pub open spec fn folded<U, W, A, F>(
    elems: Seq<U>,
    offset: int,
    f: F,
    vals: Seq<A>,
    from: int,
) -> bool where
    U: Layer<Child = ArenaIndex>,
    W: Layer<Child = A, Frame = U::Frame>,
    F: FnMut(W) -> A,
 {
    &&& vals.len() == elems.len()
    &&& forall|i: int|
        from <= i < elems.len() ==> #[trigger] reduced::<U, W, A, F>(elems, offset, f, vals, i)
}

/// Whether `f` accepts every layer that a pass over the window from its last
/// layer to its first can hand to it: a layer of the window whose children
/// are replaced by values that `f` made of them before.
pub open spec fn reducible<U, W, A, F>(elems: Seq<U>, offset: int, f: F) -> bool where
    U: Layer<Child = ArenaIndex>,
    W: Layer<Child = A, Frame = U::Frame>,
    F: FnMut(W) -> A,
 {
    forall|vals: Seq<A>, i: int, w: W|
        0 <= i < elems.len() && folded::<U, W, A, F>(elems, offset, f, vals, i + 1)
            && #[trigger] handed(elems, offset, vals, i, w) ==> f.requires((w,))
}

/// Whether `result` is a value of the root under `f`: the value at place 0
/// of values that `f` made of every layer, children before parents.
pub open spec fn folds_to<U, W, A, F>(elems: Seq<U>, offset: int, f: F, result: A) -> bool where
    U: Layer<Child = ArenaIndex>,
    W: Layer<Child = A, Frame = U::Frame>,
    F: FnMut(W) -> A,
 {
    exists|vals: Seq<A>| #[trigger]
        folded::<U, W, A, F>(elems, offset, f, vals, 0) && vals[0] == result
}

/// The values stay a fold when the value of the next layer towards the root
/// is written to its place.
proof fn lemma_folded_grows<U, W, A, F>(
    elems: Seq<U>,
    offset: int,
    f: F,
    vals: Seq<A>,
    i: int,
    w: W,
    r: A,
) where U: Layer<Child = ArenaIndex>, W: Layer<Child = A, Frame = U::Frame>, F: FnMut(W) -> A
    requires
        well_formed(elems, offset),
        0 <= i < elems.len(),
        folded::<U, W, A, F>(elems, offset, f, vals, i + 1),
        handed(elems, offset, vals, i, w),
        f.ensures((w,), r),
    ensures
        folded::<U, W, A, F>(elems, offset, f, vals.update(i, r), i),
{
    let next = vals.update(i, r);
    assert forall|j: int| i <= j < elems.len() implies #[trigger] reduced::<U, W, A, F>(
        elems,
        offset,
        f,
        next,
        j,
    ) by {
        let v = if j == i {
            w
        } else {
            assert(reduced::<U, W, A, F>(elems, offset, f, vals, j));
            choose|v: W| handed(elems, offset, vals, j, v) && f.ensures((v,), vals[j])
        };
        assert forall|p: int| 0 <= p < v.children().len() implies #[trigger] v.children()[p]
            == next[child_at(elems, j, p) - offset] by {
            assert(is_slot(elems, j, p));
        }
        assert(handed(elems, offset, next, j, v));
    }
}

/// Whether the value of place `j` has left the scratch array: a layer at
/// position `from` or later, or the layer before `from` among its first
/// `upto` children, holds `j` as a child.
spec fn spent<U: Layer<Child = ArenaIndex>>(
    elems: Seq<U>,
    offset: int,
    from: int,
    upto: int,
    j: int,
) -> bool {
    exists|i: int, p: int|
        is_slot(elems, i, p) && #[trigger] child_at(elems, i, p) - offset == j && (i >= from || (i
            == from - 1 && p < upto))
}

/// Whether the scratch array is as a pass leaves it that has reduced the
/// layers from `from` on and has taken out the first `upto` children of the
/// layer before: every value written is in its place or has gone to the one
/// parent of its layer.
spec fn scratch<U: Layer<Child = ArenaIndex>, A>(
    elems: Seq<U>,
    offset: int,
    results: Seq<Option<A>>,
    vals: Seq<A>,
    from: int,
    upto: int,
) -> bool {
    &&& results.len() == elems.len()
    &&& vals.len() == elems.len()
    &&& forall|j: int|
        from <= j < elems.len() ==> #[trigger] results[j] == Some(vals[j]) || (results[j] is None
            && spent(elems, offset, from, upto, j))
}

/// Moves the values of the children of the layer at position `i` out of the
/// scratch array, in visiting order.
fn take_children<U: Layer<Child = ArenaIndex>, A>(
    results: &mut Vec<Option<A>>,
    indices: &Vec<ArenaIndex>,
    offset: usize,
    Ghost(elems): Ghost<Seq<U>>,
    Ghost(vals): Ghost<Seq<A>>,
    Ghost(i): Ghost<int>,
) -> (kids: Vec<A>)
    requires
        well_formed(elems, offset as int),
        0 <= i < elems.len(),
        indices@ == elems[i].children(),
        scratch(elems, offset as int, old(results)@, vals, i + 1, 0),
    ensures
        kids@.len() == indices@.len(),
        forall|p: int|
            0 <= p < kids@.len() ==> #[trigger] kids@[p] == vals[child_at(elems, i, p) - offset],
        scratch(elems, offset as int, final(results)@, vals, i + 1, indices@.len() as int),
        final(results)@[i] == old(results)@[i],
{
    let mut kids: Vec<A> = Vec::new();
    for p in 0..indices.len()
        invariant
            well_formed(elems, offset as int),
            0 <= i < elems.len(),
            indices@ == elems[i].children(),
            kids@.len() == p,
            forall|q: int|
                0 <= q < p ==> #[trigger] kids@[q] == vals[child_at(elems, i, q) - offset],
            scratch(elems, offset as int, results@, vals, i + 1, p as int),
            old(results)@.len() == elems.len(),
            results@[i] == old(results)@[i],
    {
        proof {
            assert(is_slot(elems, i, p as int));
            assert(indices@[p as int].0 == child_at(elems, i, p as int));
        }
        let c = indices[p].0 - offset;
        proof {
            if results@[c as int] is None {
                assert(spent(elems, offset as int, i + 1, p as int, c as int));
            }
        }
        let ghost before = results@;
        let kid = results[c].take().unwrap();
        kids.push(kid);
        proof {
            assert forall|j: int| i + 1 <= j < elems.len() implies #[trigger] results@[j] == Some(
                vals[j],
            ) || (results@[j] is None && spent(elems, offset as int, i + 1, p + 1, j)) by {
                if j == c {
                    assert(spent(elems, offset as int, i + 1, p + 1, j));
                } else if before[j] is None {
                    assert(spent(elems, offset as int, i + 1, p as int, j));
                    assert(spent(elems, offset as int, i + 1, p + 1, j));
                }
            }
        }
    }
    kids
}

/// A scratch array with no value written: one empty place for each layer.
fn empty_scratch<A>(n: usize) -> (results: Vec<Option<A>>)
    ensures
        results@.len() == n,
        forall|j: int| 0 <= j < n ==> (#[trigger] results@[j]) is None,
{
    let mut results: Vec<Option<A>> = Vec::new();
    for k in 0..n
        invariant
            results@.len() == k,
            forall|j: int| 0 <= j < k ==> (#[trigger] results@[j]) is None,
    {
        results.push(None);
    }
    results
}

impl<'a, U: Layer<Child = ArenaIndex>> RecursiveTreeRefWithOffset<'a, U> {
    /// Reduces the window to one value, from its last layer to its first.
    ///
    /// Every layer of the window is handed to `collapse_layer` once, with
    /// each child replaced by the value made of that child's layer, which is
    /// moved out of its place in a scratch array. The value made of the first
    /// layer is the result.
    pub fn collapse_layers<A, F>(self, mut collapse_layer: F) -> (result: A) where
        U: MapLayerRef<'a, A>,
        F: FnMut(U::ToRef) -> A,

        requires
            reducible::<U, U::ToRef, A, F>(self@.elems, self@.offset, collapse_layer),
        ensures
            folds_to::<U, U::ToRef, A, F>(self@.elems, self@.offset, collapse_layer, result),
    {
        let elems = self.layers();
        let offset = self.offset();
        let n = elems.len();
        let mut results: Vec<Option<A>> = empty_scratch(n);
        let ghost mut vals: Seq<A> = Seq::new(n as nat, |j: int| arbitrary());
        let ghost reducer = collapse_layer;
        let mut idx = n;
        while idx > 0
            invariant
                collapse_layer == reducer,
                elems@ == self@.elems,
                offset == self@.offset,
                n == elems@.len(),
                well_formed(elems@, offset as int),
                reducible::<U, U::ToRef, A, F>(elems@, offset as int, reducer),
                idx <= n,
                folded::<U, U::ToRef, A, F>(elems@, offset as int, reducer, vals, idx as int),
                scratch(elems@, offset as int, results@, vals, idx as int, 0),
            decreases idx,
        {
            idx -= 1;
            let node = &elems[idx];
            let indices = node.child_list();
            let kids = take_children::<U, A>(
                &mut results,
                &indices,
                offset,
                Ghost(elems@),
                Ghost(vals),
                Ghost(idx as int),
            );
            let layer = node.build_ref(kids);
            assert(handed(elems@, offset as int, vals, idx as int, layer));
            let value = collapse_layer(layer);
            proof {
                lemma_folded_grows::<U, U::ToRef, A, F>(
                    elems@,
                    offset as int,
                    reducer,
                    vals,
                    idx as int,
                    layer,
                    value,
                );
                lemma_scratch_grows(elems@, offset as int, results@, vals, idx as int, value);
                vals = vals.update(idx as int, value);
            }
            results[idx] = Some(value);
        }
        results[0].take().unwrap()
    }
}

/// The scratch array stays in order when the value of the layer whose
/// children have all been taken out is written to its place.
proof fn lemma_scratch_grows<U: Layer<Child = ArenaIndex>, A>(
    elems: Seq<U>,
    offset: int,
    results: Seq<Option<A>>,
    vals: Seq<A>,
    i: int,
    r: A,
)
    requires
        0 <= i < elems.len(),
        scratch(elems, offset, results, vals, i + 1, elems[i].children().len() as int),
    ensures
        scratch(elems, offset, results.update(i, Some(r)), vals.update(i, r), i, 0),
{
    let next = results.update(i, Some(r));
    assert forall|j: int| i <= j < elems.len() implies #[trigger] next[j] == Some(
        vals.update(i, r)[j],
    ) || (next[j] is None && spent(elems, offset, i, 0, j)) by {
        if j > i && results[j] is None {
            assert(spent(elems, offset, i + 1, elems[i].children().len() as int, j));
            assert(spent(elems, offset, i, 0, j));
        }
    }
}

impl<'a, U: Layer<Child = ArenaIndex>> RecursiveTreeRef<'a, U> {
    /// Reduces the borrowed tree to one value, from its last layer to its
    /// first: the tree is taken as the window at offset 0.
    pub fn collapse_layers<A, F>(self, collapse_layer: F) -> (result: A) where
        U: MapLayerRef<'a, A>,
        F: FnMut(U::ToRef) -> A,

        requires
            reducible::<U, U::ToRef, A, F>(self@, 0, collapse_layer),
        ensures
            folds_to::<U, U::ToRef, A, F>(self@, 0, collapse_layer, result),
    {
        RecursiveTreeRefWithOffset::new(self.layers(), 0).collapse_layers(collapse_layer)
    }
}

impl<U: Layer<Child = ArenaIndex>> RecursiveTree<U> {
    /// Reduces the tree to one value, from its last layer to its first, and
    /// uses the tree up.
    ///
    /// Every layer is handed to `collapse_layer` once, with each child
    /// replaced by the value made of that child's layer, which is moved out
    /// of its place in a scratch array. The value made of the root is the
    /// result.
    pub fn collapse_layers<A, F>(self, mut collapse_layer: F) -> (result: A) where
        U: MapLayer<A>,
        F: FnMut(U::To) -> A,

        requires
            reducible::<U, U::To, A, F>(self@, 0, collapse_layer),
        ensures
            folds_to::<U, U::To, A, F>(self@, 0, collapse_layer, result),
    {
        let ghost all = self@;
        let mut elems = self.into_layers();
        let n = elems.len();
        let mut results: Vec<Option<A>> = empty_scratch(n);
        let ghost mut vals: Seq<A> = Seq::new(n as nat, |j: int| arbitrary());
        let ghost reducer = collapse_layer;
        let mut idx = n;
        while idx > 0
            invariant
                collapse_layer == reducer,
                n == all.len(),
                well_formed(all, 0),
                reducible::<U, U::To, A, F>(all, 0, reducer),
                idx <= n,
                elems@ == all.subrange(0, idx as int),
                folded::<U, U::To, A, F>(all, 0, reducer, vals, idx as int),
                scratch(all, 0, results@, vals, idx as int, 0),
            decreases idx,
        {
            idx -= 1;
            let node = elems.pop().unwrap();
            proof {
                assert(node == all[idx as int]);
                node.lemma_arity();
            }
            let (rest, indices) = node.split();
            let kids = take_children::<U, A>(
                &mut results,
                &indices,
                0,
                Ghost(all),
                Ghost(vals),
                Ghost(idx as int),
            );
            let layer = <U as MapLayer<A>>::build(rest, kids);
            assert(handed(all, 0, vals, idx as int, layer));
            let value = collapse_layer(layer);
            proof {
                lemma_folded_grows::<U, U::To, A, F>(
                    all,
                    0,
                    reducer,
                    vals,
                    idx as int,
                    layer,
                    value,
                );
                lemma_scratch_grows(all, 0, results@, vals, idx as int, value);
                vals = vals.update(idx as int, value);
                assert(elems@ == all.subrange(0, idx as int));
            }
            results[idx] = Some(value);
        }
        results[0].take().unwrap()
    }
}

/// What the window at position `c` shows during a pass that has made the
/// values `vals`: the layers from `c` on, and for each of them its value as
/// cached context.
pub open spec fn substructure<U, A>(elems: Seq<U>, vals: Seq<A>, c: int) -> ContextView<U, A> {
    ContextView {
        elems: elems.subrange(c, elems.len() as int),
        offset: c,
        context: Seq::new((vals.len() - c) as nat, |j: int| Some(vals[c + j])),
    }
}

/// Whether `w` is the layer at position `i` of the tree with every child
/// replaced by a pair: the value that `vals` holds for the child, and the
/// window that begins at the child.
pub open spec fn handed_with_substructure<'x, U, W, A>(
    elems: Seq<U>,
    vals: Seq<A>,
    i: int,
    w: W,
) -> bool where
    U: Layer<Child = ArenaIndex> + 'x,
    A: 'x,
    W: Layer<Child = (&'x A, RecursiveTreeRefWithOffsetAndContext<'x, U, A>), Frame = U::Frame>,
 {
    &&& w.frame() == elems[i].frame()
    &&& w.children().len() == elems[i].children().len()
    &&& forall|p: int|
        0 <= p < w.children().len() ==> {
            &&& *(#[trigger] w.children()[p]).0 == vals[child_at(elems, i, p)]
            &&& w.children()[p].1@ == substructure(elems, vals, child_at(elems, i, p))
        }
}

/// Whether `vals` holds at place `i` a value that `f` may make of the layer
/// at position `i` once its children are replaced by such pairs.
pub open spec fn reduced_with_substructure<'x, U, W, A, F>(
    elems: Seq<U>,
    f: F,
    vals: Seq<A>,
    i: int,
) -> bool where
    U: Layer<Child = ArenaIndex> + 'x,
    A: 'x,
    W: Layer<Child = (&'x A, RecursiveTreeRefWithOffsetAndContext<'x, U, A>), Frame = U::Frame>,
    F: FnMut(W) -> A,
 {
    exists|w: W| handed_with_substructure(elems, vals, i, w) && f.ensures((w,), vals[i])
}

/// Whether `vals` holds such a value for every position from `from` on.
pub open spec fn folded_with_substructure<'x, U, W, A, F>(
    elems: Seq<U>,
    f: F,
    vals: Seq<A>,
    from: int,
) -> bool where
    U: Layer<Child = ArenaIndex> + 'x,
    A: 'x,
    W: Layer<Child = (&'x A, RecursiveTreeRefWithOffsetAndContext<'x, U, A>), Frame = U::Frame>,
    F: FnMut(W) -> A,
 {
    &&& vals.len() == elems.len()
    &&& forall|i: int|
        from <= i < elems.len() ==> #[trigger] reduced_with_substructure::<U, W, A, F>(
            elems,
            f,
            vals,
            i,
        )
}

/// Whether `f` accepts every layer that a pass over the tree from its last
/// layer to its first can hand to it together with the substructure of each
/// child.
pub open spec fn reducible_with_substructure<'x, U, W, A, F>(elems: Seq<U>, f: F) -> bool where
    U: Layer<Child = ArenaIndex> + 'x,
    A: 'x,
    W: Layer<Child = (&'x A, RecursiveTreeRefWithOffsetAndContext<'x, U, A>), Frame = U::Frame>,
    F: FnMut(W) -> A,
 {
    forall|vals: Seq<A>, i: int, w: W|
        0 <= i < elems.len() && folded_with_substructure::<U, W, A, F>(elems, f, vals, i + 1)
            && #[trigger] handed_with_substructure(elems, vals, i, w) ==> f.requires((w,))
}

/// Whether `result` is a value of the root under `f`, where `f` sees the
/// substructure of each child beside its value.
pub open spec fn folds_with_substructure_to<'x, U, W, A, F>(
    elems: Seq<U>,
    f: F,
    result: A,
) -> bool where
    U: Layer<Child = ArenaIndex> + 'x,
    A: 'x,
    W: Layer<Child = (&'x A, RecursiveTreeRefWithOffsetAndContext<'x, U, A>), Frame = U::Frame>,
    F: FnMut(W) -> A,
 {
    exists|vals: Seq<A>| #[trigger]
        folded_with_substructure::<U, W, A, F>(elems, f, vals, 0) && vals[0] == result
}

/// The values stay a fold with substructure when the value of the next
/// layer towards the root is written to its place.
proof fn lemma_folded_with_substructure_grows<'x, U, W, A, F>(
    elems: Seq<U>,
    f: F,
    vals: Seq<A>,
    i: int,
    w: W,
    r: A,
) where
    U: Layer<Child = ArenaIndex> + 'x,
    A: 'x,
    W: Layer<Child = (&'x A, RecursiveTreeRefWithOffsetAndContext<'x, U, A>), Frame = U::Frame>,
    F: FnMut(W) -> A,

    requires
        well_formed(elems, 0),
        0 <= i < elems.len(),
        folded_with_substructure::<U, W, A, F>(elems, f, vals, i + 1),
        handed_with_substructure(elems, vals, i, w),
        f.ensures((w,), r),
    ensures
        folded_with_substructure::<U, W, A, F>(elems, f, vals.update(i, r), i),
{
    let next = vals.update(i, r);
    assert forall|j: int| i <= j < elems.len() implies #[trigger] reduced_with_substructure::<
        U,
        W,
        A,
        F,
    >(elems, f, next, j) by {
        let v = if j == i {
            w
        } else {
            assert(reduced_with_substructure::<U, W, A, F>(elems, f, vals, j));
            choose|v: W| handed_with_substructure(elems, vals, j, v) && f.ensures((v,), vals[j])
        };
        assert forall|p: int| 0 <= p < v.children().len() implies {
            &&& *(#[trigger] v.children()[p]).0 == next[child_at(elems, j, p)]
            &&& v.children()[p].1@ == substructure(elems, next, child_at(elems, j, p))
        } by {
            assert(is_slot(elems, j, p));
            let c = child_at(elems, j, p);
            assert(substructure(elems, vals, c).context =~= substructure(elems, next, c).context);
        }
        assert(handed_with_substructure(elems, next, j, v));
    }
}

/// A layer with a value and the window of the substructure in place of each
/// child.
pub type WithSubstructure<'x, U, A> = <U as MapLayerRef<
    'x,
    (&'x A, RecursiveTreeRefWithOffsetAndContext<'x, U, A>),
>>::ToRef;

impl<'a, U: Layer<Child = ArenaIndex>> RecursiveTreeRef<'a, U> {
    /// Reduces the borrowed tree to one value, from its last layer to its
    /// first, and lets the reducer see the substructure.
    ///
    /// Every layer is handed to `collapse_layer` once, with each child
    /// replaced by a pair: a reference to the value made of that child's
    /// layer, and the window that begins at the child, with the values made so
    /// far as its cached context. The value made of the root is the result.
    pub fn collapse_layers_2<A, F>(&self, mut collapse_layer: F) -> (result: A) where
        for <'x>U: MapLayerRef<'x, (&'x A, RecursiveTreeRefWithOffsetAndContext<'x, U, A>)>,
        F: for <'x>FnMut(WithSubstructure<'x, U, A>) -> A,

        requires
            reducible_with_substructure::<U, WithSubstructure<'_, U, A>, A, F>(
                self@,
                collapse_layer,
            ),
        ensures
            folds_with_substructure_to::<U, WithSubstructure<'_, U, A>, A, F>(
                self@,
                collapse_layer,
                result,
            ),
    {
        let elems = self.layers();
        let n = elems.len();
        let mut results: Vec<Option<A>> = empty_scratch(n);
        let ghost mut vals: Seq<A> = Seq::new(n as nat, |j: int| arbitrary());
        let ghost reducer = collapse_layer;
        let mut idx = n;
        while idx > 0
            invariant
                collapse_layer == reducer,
                elems@ == self@,
                n == elems@.len(),
                well_formed(elems@, 0),
                reducible_with_substructure::<U, WithSubstructure<'_, U, A>, A, F>(
                    elems@,
                    reducer,
                ),
                idx <= n,
                results@.len() == n,
                vals.len() == n,
                folded_with_substructure::<U, WithSubstructure<'_, U, A>, A, F>(
                    elems@,
                    reducer,
                    vals,
                    idx as int,
                ),
                forall|j: int| idx <= j < n ==> #[trigger] results@[j] == Some(vals[j]),
            decreases idx,
        {
            idx -= 1;
            let node = &elems[idx];
            let indices = node.child_list();
            let mut kids: Vec<(&A, RecursiveTreeRefWithOffsetAndContext<'_, U, A>)> = Vec::new();
            for p in 0..indices.len()
                invariant
                    elems@ == self@,
                    n == elems@.len(),
                    idx < n,
                    well_formed(elems@, 0),
                    indices@ == elems@[idx as int].children(),
                    results@.len() == n,
                    vals.len() == n,
                    forall|j: int| idx < j < n ==> #[trigger] results@[j] == Some(vals[j]),
                    kids@.len() == p,
                    forall|q: int|
                        0 <= q < p ==> {
                            &&& *(#[trigger] kids@[q]).0 == vals[child_at(elems@, idx as int, q)]
                            &&& kids@[q].1@ == substructure(
                                elems@,
                                vals,
                                child_at(elems@, idx as int, q),
                            )
                        },
            {
                proof {
                    assert(is_slot(elems@, idx as int, p as int));
                    assert(indices@[p as int].0 == child_at(elems@, idx as int, p as int));
                    lemma_suffix_well_formed(elems@, 0, indices@[p as int].0 as int);
                }
                let c = indices[p].0;
                let value = results[c].as_ref().unwrap();
                let window = RecursiveTreeRefWithOffsetAndContext::new(
                    slice_subrange(elems, c, n),
                    c,
                    slice_subrange(results.as_slice(), c, n),
                );
                proof {
                    assert(window@.context =~= substructure(elems@, vals, c as int).context);
                }
                kids.push((value, window));
            }
            let layer = node.build_ref(kids);
            assert(handed_with_substructure(elems@, vals, idx as int, layer));
            let value = collapse_layer(layer);
            proof {
                lemma_folded_with_substructure_grows::<U, WithSubstructure<'_, U, A>, A, F>(
                    elems@,
                    reducer,
                    vals,
                    idx as int,
                    layer,
                    value,
                );
                vals = vals.update(idx as int, value);
            }
            results[idx] = Some(value);
        }
        results.swap_remove(0).unwrap()
    }
}

/// Whether `w` is the layer at position `i` of the window with every child
/// replaced by a pair: the value cached for the child, and the value that
/// `vals` holds for it.
pub open spec fn handed_with_context<'a, U, W, Cached, A>(
    window: ContextView<U, Cached>,
    vals: Seq<A>,
    i: int,
    w: W,
) -> bool where
    U: Layer<Child = ArenaIndex>,
    Cached: 'a,
    A: 'a,
    W: Layer<Child = (&'a Cached, &'a A), Frame = U::Frame>,
 {
    &&& w.frame() == window.elems[i].frame()
    &&& w.children().len() == window.elems[i].children().len()
    &&& forall|p: int|
        0 <= p < w.children().len() ==> {
            &&& Some(*(#[trigger] w.children()[p]).0) == window.context[child_at(
                window.elems,
                i,
                p,
            ) - window.offset]
            &&& *w.children()[p].1 == vals[child_at(window.elems, i, p) - window.offset]
        }
}

/// Whether `vals` holds at place `i` a value that `f` may make of the layer
/// at position `i` once its children are replaced by such pairs.
pub open spec fn reduced_with_context<'a, U, W, Cached, A, F>(
    window: ContextView<U, Cached>,
    f: F,
    vals: Seq<A>,
    i: int,
) -> bool where
    U: Layer<Child = ArenaIndex>,
    Cached: 'a,
    A: 'a,
    W: Layer<Child = (&'a Cached, &'a A), Frame = U::Frame>,
    F: FnMut(W) -> &'a A,
 {
    exists|w: W| handed_with_context(window, vals, i, w) && f.ensures((w,), &vals[i])
}

/// Whether `vals` holds such a value for every position from `from` on.
pub open spec fn folded_with_context<'a, U, W, Cached, A, F>(
    window: ContextView<U, Cached>,
    f: F,
    vals: Seq<A>,
    from: int,
) -> bool where
    U: Layer<Child = ArenaIndex>,
    Cached: 'a,
    A: 'a,
    W: Layer<Child = (&'a Cached, &'a A), Frame = U::Frame>,
    F: FnMut(W) -> &'a A,
 {
    &&& vals.len() == window.elems.len()
    &&& forall|i: int|
        from <= i < window.elems.len() ==> #[trigger] reduced_with_context::<U, W, Cached, A, F>(
            window,
            f,
            vals,
            i,
        )
}

/// Whether `f` accepts every layer that a pass over the window from its last
/// layer to its first can hand to it together with the cached value of each
/// child.
pub open spec fn reducible_with_context<'a, U, W, Cached, A, F>(
    window: ContextView<U, Cached>,
    f: F,
) -> bool where
    U: Layer<Child = ArenaIndex>,
    Cached: 'a,
    A: 'a,
    W: Layer<Child = (&'a Cached, &'a A), Frame = U::Frame>,
    F: FnMut(W) -> &'a A,
 {
    forall|vals: Seq<A>, i: int, w: W|
        0 <= i < window.elems.len() && folded_with_context::<U, W, Cached, A, F>(
            window,
            f,
            vals,
            i + 1,
        ) && #[trigger] handed_with_context(window, vals, i, w) ==> f.requires((w,))
}

/// Whether `result` is a value of the first layer of the window under `f`,
/// where `f` sees the cached value of each child beside its value.
pub open spec fn folds_with_context_to<'a, U, W, Cached, A, F>(
    window: ContextView<U, Cached>,
    f: F,
    result: A,
) -> bool where
    U: Layer<Child = ArenaIndex>,
    Cached: 'a,
    A: 'a,
    W: Layer<Child = (&'a Cached, &'a A), Frame = U::Frame>,
    F: FnMut(W) -> &'a A,
 {
    exists|vals: Seq<A>| #[trigger]
        folded_with_context::<U, W, Cached, A, F>(window, f, vals, 0) && vals[0] == result
}

/// The values stay a fold with context when the value of the next layer
/// towards the first is written to its place.
proof fn lemma_folded_with_context_grows<'a, U, W, Cached, A, F>(
    window: ContextView<U, Cached>,
    f: F,
    vals: Seq<A>,
    i: int,
    w: W,
    r: A,
) where
    U: Layer<Child = ArenaIndex>,
    Cached: 'a,
    A: 'a,
    W: Layer<Child = (&'a Cached, &'a A), Frame = U::Frame>,
    F: FnMut(W) -> &'a A,

    requires
        well_formed(window.elems, window.offset),
        0 <= i < window.elems.len(),
        folded_with_context::<U, W, Cached, A, F>(window, f, vals, i + 1),
        handed_with_context(window, vals, i, w),
        f.ensures((w,), &r),
    ensures
        folded_with_context::<U, W, Cached, A, F>(window, f, vals.update(i, r), i),
{
    let next = vals.update(i, r);
    assert forall|j: int| i <= j < window.elems.len() implies #[trigger] reduced_with_context::<
        U,
        W,
        Cached,
        A,
        F,
    >(window, f, next, j) by {
        let v = if j == i {
            w
        } else {
            assert(reduced_with_context::<U, W, Cached, A, F>(window, f, vals, j));
            choose|v: W| handed_with_context(window, vals, j, v) && f.ensures((v,), &vals[j])
        };
        assert forall|p: int| 0 <= p < v.children().len() implies {
            &&& Some(*(#[trigger] v.children()[p]).0) == window.context[child_at(
                window.elems,
                j,
                p,
            ) - window.offset]
            &&& *v.children()[p].1 == next[child_at(window.elems, j, p) - window.offset]
        } by {
            assert(is_slot(window.elems, j, p));
        }
        assert(handed_with_context(window, next, j, v));
    }
}

impl<'a, U: Layer<Child = ArenaIndex>, Cached> RecursiveTreeRefWithOffsetAndContext<
    'a,
    U,
    Cached,
> {
    /// Reduces the window to one value, from its last layer to its first,
    /// and lets the reducer see the cached context.
    ///
    /// Every layer of the window is handed to `collapse_layer` once, with
    /// each child replaced by a pair: the value that was cached for the child
    /// before this pass, and the value that this pass made of the child's
    /// layer. The value made of the first layer is the result.
    pub fn collapse_layers_3<A, F>(&self, mut collapse_layer: F) -> (result: &'a A) where
        U: MapLayerRef<'a, (&'a Cached, &'a A)>,
        F: FnMut(U::ToRef) -> &'a A,

        requires
            reducible_with_context::<U, U::ToRef, Cached, A, F>(self@, collapse_layer),
        ensures
            folds_with_context_to::<U, U::ToRef, Cached, A, F>(self@, collapse_layer, *result),
    {
        let elems = self.layers();
        let context = self.context();
        let offset = self.offset();
        let n = elems.len();
        let mut results: Vec<Option<&'a A>> = empty_scratch(n);
        let ghost mut vals: Seq<A> = Seq::new(n as nat, |j: int| arbitrary());
        let ghost reducer = collapse_layer;
        let mut idx = n;
        while idx > 0
            invariant
                collapse_layer == reducer,
                elems@ == self@.elems,
                context@ == self@.context,
                offset == self@.offset,
                n == elems@.len(),
                well_formed(elems@, offset as int),
                context_covers(elems@, offset as int, context@),
                reducible_with_context::<U, U::ToRef, Cached, A, F>(self@, reducer),
                idx <= n,
                results@.len() == n,
                vals.len() == n,
                folded_with_context::<U, U::ToRef, Cached, A, F>(self@, reducer, vals, idx as int),
                forall|j: int| idx <= j < n ==> #[trigger] results@[j] == Some(&vals[j]),
            decreases idx,
        {
            idx -= 1;
            let node = &elems[idx];
            let indices = node.child_list();
            let mut kids: Vec<(&'a Cached, &'a A)> = Vec::new();
            for p in 0..indices.len()
                invariant
                    elems@ == self@.elems,
                    context@ == self@.context,
                    offset == self@.offset,
                    n == elems@.len(),
                    idx < n,
                    well_formed(elems@, offset as int),
                    context_covers(elems@, offset as int, context@),
                    indices@ == elems@[idx as int].children(),
                    results@.len() == n,
                    vals.len() == n,
                    forall|j: int| idx < j < n ==> #[trigger] results@[j] == Some(&vals[j]),
                    kids@.len() == p,
                    forall|q: int|
                        0 <= q < p ==> {
                            &&& Some(*(#[trigger] kids@[q]).0) == context@[child_at(
                                elems@,
                                idx as int,
                                q,
                            ) - offset]
                            &&& *kids@[q].1 == vals[child_at(elems@, idx as int, q) - offset]
                        },
            {
                proof {
                    assert(is_slot(elems@, idx as int, p as int));
                    assert(indices@[p as int].0 == child_at(elems@, idx as int, p as int));
                }
                let c = indices[p].0 - offset;
                let res: &'a A = results[c].unwrap();
                let cached: &'a Cached = context[c].as_ref().unwrap();
                kids.push((cached, res));
            }
            let layer = node.build_ref(kids);
            assert(handed_with_context(self@, vals, idx as int, layer));
            let value = collapse_layer(layer);
            proof {
                lemma_folded_with_context_grows::<U, U::ToRef, Cached, A, F>(
                    self@,
                    reducer,
                    vals,
                    idx as int,
                    layer,
                    *value,
                );
                vals = vals.update(idx as int, *value);
            }
            results[idx] = Some(value);
        }
        results[0].unwrap()
    }
}

} // verus!
