//! How deep a store is: the height of a layer, and the paths that lead from
//! a layer down to a leaf.

use crate::map_layer::Layer;
use crate::recursive_tree::arena_eval::{folded, handed, reduced, ArenaIndex};
use crate::recursive_tree::{child_at, is_slot, well_formed};
use vstd::prelude::*;

verus! {

/// The height of the layer at position `i`: one more than the height of its
/// tallest child, and 1 for a layer without children.
pub open spec fn height<U: Layer<Child = ArenaIndex>>(elems: Seq<U>, i: int) -> nat
    decreases elems.len() - i, 1nat, 0nat,
{
    1 + tallest(elems, i, elems[i].children().len())
}

/// The greatest height among the first `k` children of the layer at position
/// `i`, and 0 where there is none.
pub open spec fn tallest<U: Layer<Child = ArenaIndex>>(elems: Seq<U>, i: int, k: nat) -> nat
    decreases elems.len() - i, 0nat, k,
{
    if k == 0 {
        0
    } else {
        let before = tallest(elems, i, (k - 1) as nat);
        let c = child_at(elems, i, k - 1);
        if i < c < elems.len() && height(elems, c) > before {
            height(elems, c)
        } else {
            before
        }
    }
}

/// The greatest of some numbers, and 0 where there is none.
pub open spec fn greatest(numbers: Seq<usize>) -> nat
    decreases numbers.len(),
{
    if numbers.len() == 0 {
        0
    } else if numbers.last() > greatest(numbers.drop_last()) {
        numbers.last() as nat
    } else {
        greatest(numbers.drop_last())
    }
}

/// Whether the layer at position `i` holds position `c` as a child.
pub open spec fn is_child<U: Layer<Child = ArenaIndex>>(elems: Seq<U>, i: int, c: int) -> bool {
    exists|p: int| is_slot(elems, i, p) && #[trigger] child_at(elems, i, p) == c
}

/// Whether `path` leads from a layer down to a leaf: it is a sequence of
/// positions, each but the first a child of the one before, that ends at a
/// layer without children.
pub open spec fn is_descent<U: Layer<Child = ArenaIndex>>(elems: Seq<U>, path: Seq<int>) -> bool {
    &&& path.len() > 0
    &&& forall|t: int| 0 <= t < path.len() ==> 0 <= #[trigger] path[t] < elems.len()
    &&& forall|t: int| 1 <= t < path.len() ==> is_child(elems, path[t - 1], #[trigger] path[t])
    &&& elems[path.last()].children().len() == 0
}

/// No child among the first `k` is taller than the tallest of them.
proof fn lemma_tallest_bounds<U: Layer<Child = ArenaIndex>>(elems: Seq<U>, i: int, k: nat, p: int)
    requires
        well_formed(elems, 0),
        0 <= p < k <= elems[i].children().len(),
        0 <= i < elems.len(),
    ensures
        height(elems, child_at(elems, i, p)) <= tallest(elems, i, k),
    decreases k,
{
    assert(is_slot(elems, i, k - 1));
    if p < k - 1 {
        lemma_tallest_bounds(elems, i, (k - 1) as nat, p);
    }
}

/// Where there are children, one of them is the tallest.
proof fn lemma_tallest_attained<U: Layer<Child = ArenaIndex>>(elems: Seq<U>, i: int, k: nat) -> (p:
    int)
    requires
        well_formed(elems, 0),
        0 < k <= elems[i].children().len(),
        0 <= i < elems.len(),
    ensures
        0 <= p < k,
        height(elems, child_at(elems, i, p)) == tallest(elems, i, k),
    decreases k,
{
    assert(is_slot(elems, i, k - 1));
    let before = tallest(elems, i, (k - 1) as nat);
    if height(elems, child_at(elems, i, k - 1)) > before || k == 1 {
        k - 1
    } else {
        lemma_tallest_attained(elems, i, (k - 1) as nat)
    }
}

/// A layer is no higher than the number of layers from it to the end of the
/// store.
pub proof fn lemma_height_bound<U: Layer<Child = ArenaIndex>>(elems: Seq<U>, i: int)
    requires
        well_formed(elems, 0),
        0 <= i < elems.len(),
    ensures
        height(elems, i) <= elems.len() - i,
    decreases elems.len() - i,
{
    let k = elems[i].children().len();
    if k > 0 {
        let p = lemma_tallest_attained(elems, i, k);
        assert(is_slot(elems, i, p));
        lemma_height_bound(elems, child_at(elems, i, p));
    }
}

/// No path from a layer down to a leaf is longer than the layer is high.
pub proof fn lemma_descent_bound<U: Layer<Child = ArenaIndex>>(elems: Seq<U>, path: Seq<int>)
    requires
        well_formed(elems, 0),
        is_descent(elems, path),
    ensures
        path.len() <= height(elems, path[0]),
    decreases path.len(),
{
    if path.len() > 1 {
        let rest = path.drop_first();
        assert forall|t: int| 1 <= t < rest.len() implies is_child(
            elems,
            rest[t - 1],
            #[trigger] rest[t],
        ) by {
            assert(rest[t] == path[t + 1]);
            assert(rest[t - 1] == path[t]);
        }
        assert(rest.last() == path.last());
        assert(rest[0] == path[1]);
        lemma_descent_bound(elems, rest);
        assert(is_child(elems, path[0], path[1]));
        let p = choose|p: int| is_slot(elems, path[0], p) && #[trigger] child_at(elems, path[0], p)
            == path[1];
        lemma_tallest_bounds(elems, path[0], elems[path[0]].children().len(), p);
    }
}

/// From every layer a path leads down to a leaf that is as long as the
/// layer is high.
pub proof fn lemma_descent_attained<U: Layer<Child = ArenaIndex>>(elems: Seq<U>, i: int) -> (path:
    Seq<int>)
    requires
        well_formed(elems, 0),
        0 <= i < elems.len(),
    ensures
        is_descent(elems, path),
        path[0] == i,
        path.len() == height(elems, i),
    decreases elems.len() - i,
{
    let k = elems[i].children().len();
    if k == 0 {
        seq![i]
    } else {
        let p = lemma_tallest_attained(elems, i, k);
        assert(is_slot(elems, i, p));
        let c = child_at(elems, i, p);
        let below = lemma_descent_attained(elems, c);
        let path = seq![i] + below;
        assert forall|t: int| 1 <= t < path.len() implies is_child(
            elems,
            path[t - 1],
            #[trigger] path[t],
        ) by {
            if t > 1 {
                assert(path[t] == below[t - 1]);
                assert(path[t - 1] == below[t - 2]);
            }
        }
        assert(path.last() == below.last());
        path
    }
}

/// The height of a layer is the length of the longest path from it down to
/// a leaf: no such path is longer, and one is as long.
pub proof fn lemma_height_is_longest_descent<U: Layer<Child = ArenaIndex>>(elems: Seq<U>, i: int)
    requires
        well_formed(elems, 0),
        0 <= i < elems.len(),
    ensures
        forall|path: Seq<int>| #[trigger]
            is_descent(elems, path) && path[0] == i ==> path.len() <= height(elems, i),
        exists|path: Seq<int>| #[trigger]
            is_descent(elems, path) && path[0] == i && path.len() == height(elems, i),
{
    assert forall|path: Seq<int>| #[trigger] is_descent(elems, path) && path[0] == i implies path.len()
        <= height(elems, i) by {
        lemma_descent_bound(elems, path);
    }
    let longest = lemma_descent_attained(elems, i);
    assert(is_descent(elems, longest) && longest[0] == i && longest.len() == height(elems, i));
}

/// The greatest of the values of the first `k` children is the height of
/// the tallest of them, where each value is the height of its child.
proof fn lemma_greatest_is_tallest<U: Layer<Child = ArenaIndex>>(
    elems: Seq<U>,
    i: int,
    kids: Seq<usize>,
    k: nat,
)
    requires
        well_formed(elems, 0),
        0 <= i < elems.len(),
        k <= elems[i].children().len(),
        kids.len() == k,
        forall|p: int| 0 <= p < k ==> #[trigger] kids[p] == height(elems, child_at(elems, i, p)),
    ensures
        greatest(kids) == tallest(elems, i, k),
    decreases k,
{
    if k > 0 {
        assert(is_slot(elems, i, k - 1));
        let fewer = kids.drop_last();
        assert forall|p: int| 0 <= p < k - 1 implies #[trigger] fewer[p] == height(
            elems,
            child_at(elems, i, p),
        ) by {
            assert(fewer[p] == kids[p]);
        }
        lemma_greatest_is_tallest(elems, i, fewer, (k - 1) as nat);
    }
}

/// A fold that makes of each layer one more than the greatest value of its
/// children holds at every place the height of the layer.
pub proof fn lemma_fold_is_height<U, W, F>(elems: Seq<U>, f: F, vals: Seq<usize>, from: int, i: int) where
    U: Layer<Child = ArenaIndex>,
    W: Layer<Child = usize, Frame = U::Frame>,
    F: FnMut(W) -> usize,

    requires
        well_formed(elems, 0),
        forall|w: W, r: usize| #[trigger] f.ensures((w,), r) ==> r == 1 + greatest(w.children()),
        folded::<U, W, usize, F>(elems, 0, f, vals, from),
        0 <= from <= i < elems.len(),
    ensures
        vals[i] == height(elems, i),
    decreases elems.len() - i,
{
    assert(reduced::<U, W, usize, F>(elems, 0, f, vals, i));
    let w = choose|w: W| handed(elems, 0, vals, i, w) && f.ensures((w,), vals[i]);
    let k = elems[i].children().len();
    assert forall|p: int| 0 <= p < k implies #[trigger] w.children()[p] == height(
        elems,
        child_at(elems, i, p),
    ) by {
        assert(is_slot(elems, i, p));
        lemma_fold_is_height::<U, W, F>(elems, f, vals, from, child_at(elems, i, p));
    }
    lemma_greatest_is_tallest(elems, i, w.children(), k);
}

} // verus!
