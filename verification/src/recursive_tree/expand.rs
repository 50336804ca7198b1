//! Building a store top-down and breadth-first from a seed.

use crate::map_layer::{Layer, MapLayer};
use crate::recursive_tree::arena_eval::ArenaIndex;
use crate::recursive_tree::{child_at, is_slot, well_formed, RecursiveTree};
use std::collections::VecDeque;
use vstd::prelude::*;

verus! {

/// The position of the first child of the layer at position `i` when
/// positions are given out breadth-first: one for the root, and one for every
/// child of every layer before `i`.
pub open spec fn first_child<U: Layer<Child = ArenaIndex>>(elems: Seq<U>, i: int) -> int
    decreases i,
{
    if i <= 0 {
        1
    } else {
        first_child(elems, i - 1) + elems[i - 1].children().len()
    }
}

/// The layers are numbered breadth-first, and `total` positions have been
/// given out to them and their children.
///
/// The children of a layer have consecutive positions, the children of a
/// later layer come after those of an earlier one, and every layer was given
/// its position before it was stored.
pub open spec fn numbered<U: Layer<Child = ArenaIndex>>(elems: Seq<U>, total: int) -> bool {
    &&& forall|i: int| 0 <= i < elems.len() ==> i < #[trigger] first_child(elems, i)
    &&& first_child(elems, elems.len() as int) == total
    &&& forall|i: int, p: int|
        is_slot(elems, i, p) ==> #[trigger] child_at(elems, i, p) == first_child(elems, i) + p
}

/// The first child's position depends only on how many children the layers
/// before it have.
pub proof fn lemma_first_child_prefix<U: Layer<Child = ArenaIndex>>(
    a: Seq<U>,
    b: Seq<U>,
    i: int,
)
    requires
        0 <= i <= a.len(),
        i <= b.len(),
        forall|j: int| 0 <= j < i ==> a[j].children().len() == b[j].children().len(),
    ensures
        first_child(a, i) == first_child(b, i),
    decreases i,
{
    if i > 0 {
        lemma_first_child_prefix(a, b, i - 1);
    }
}

/// Later layers have their children at later positions.
pub proof fn lemma_first_child_grows<U: Layer<Child = ArenaIndex>>(elems: Seq<U>, i: int, j: int)
    requires
        0 <= i < j <= elems.len(),
    ensures
        first_child(elems, i) + elems[i].children().len() <= first_child(elems, j),
    decreases j - i,
{
    if i + 1 < j {
        lemma_first_child_grows(elems, i, j - 1);
    }
}

/// A store that is numbered breadth-first to its end is well formed.
pub proof fn lemma_numbered_well_formed<U: Layer<Child = ArenaIndex>>(elems: Seq<U>)
    requires
        elems.len() > 0,
        numbered(elems, elems.len() as int),
    ensures
        well_formed(elems, 0),
{
    assert forall|i: int, p: int| is_slot(elems, i, p) implies i < #[trigger] child_at(
        elems,
        i,
        p,
    ) < elems.len() by {
        lemma_first_child_grows(elems, i, elems.len() as int);
    }
    assert forall|i: int, p: int, j: int, q: int|
        is_slot(elems, i, p) && is_slot(elems, j, q) && #[trigger] child_at(elems, i, p)
            == #[trigger] child_at(elems, j, q) implies i == j && p == q by {
        if i < j {
            lemma_first_child_grows(elems, i, j);
        }
        if j < i {
            lemma_first_child_grows(elems, j, i);
        }
    }
}

/// What a build in progress has made so far.
pub struct ExpansionView<A, U> {
    /// The layers stored so far, children named by position.
    pub elems: Seq<U>,
    /// Every seed that has been given a position, by position. The first is
    /// the seed of the root.
    pub seeds: Seq<A>,
}

/// A build in progress that waits for the layer of the next position.
///
/// The seeds that come after it wait in a first-in-first-out frontier.
pub struct Expansion<A, U: Layer<Child = ArenaIndex>> {
    frontier: VecDeque<A>,
    elems: Vec<U>,
    seeds: Ghost<Seq<A>>,
}

/// What a build does next.
pub enum Step<A, U: Layer<Child = ArenaIndex>> {
    /// The layer of this seed is wanted next, for the build that comes with
    /// it.
    Generate(Expansion<A, U>, A),
    /// Every seed has its layer: the store is complete.
    Finished(RecursiveTree<U>),
}

/// Whether `elems` is what a build at `before` holds once it has stored
/// `layer` with its children replaced by the next free positions.
pub open spec fn absorbed<W: MapLayer<ArenaIndex>>(
    before: ExpansionView<W::Child, W::To>,
    layer: W,
    elems: Seq<W::To>,
) -> bool {
    &&& elems.len() == before.elems.len() + 1
    &&& elems.drop_last() == before.elems
    &&& elems.last().frame() == layer.frame()
    &&& elems.last().children().len() == layer.children().len()
    &&& forall|p: int|
        0 <= p < layer.children().len() ==> (#[trigger] elems.last().children()[p]).0
            == before.seeds.len() + p
}

impl<A, U: Layer<Child = ArenaIndex>> View for Expansion<A, U> {
    type V = ExpansionView<A, U>;

    closed spec fn view(&self) -> ExpansionView<A, U> {
        ExpansionView { elems: self.elems@, seeds: self.seeds@ }
    }
}

impl<A, U: Layer<Child = ArenaIndex>> Expansion<A, U> {
    #[verifier::type_invariant]
    spec fn consistent(self) -> bool {
        &&& self.seeds@.len() == self.elems@.len() + 1 + self.frontier@.len()
        &&& self.seeds@.len() <= usize::MAX
        &&& self.frontier@ == self.seeds@.subrange(
            self.elems@.len() as int + 1,
            self.seeds@.len() as int,
        )
        &&& numbered(self.elems@, self.seeds@.len() as int)
    }

    /// Begins a build from `seed`: nothing is stored yet, and the layer of
    /// `seed`, which is handed back, is wanted first.
    pub fn start(seed: A) -> (begun: (Self, A))
        ensures
            begun.0@.elems == Seq::<U>::empty(),
            begun.0@.seeds == seq![seed],
            begun.1 == seed,
    {
        let ghost first = Seq::<A>::empty().push(seed);
        let seeds = Ghost(first);
        let frontier: VecDeque<A> = VecDeque::new();
        let elems: Vec<U> = Vec::new();
        assert(frontier@ == first.subrange(1, 1));
        (Expansion { frontier, elems, seeds }, seed)
    }

    /// How many positions the build has given out so far.
    pub fn assigned(&self) -> (n: usize)
        ensures
            n == self@.seeds.len(),
    {
        proof {
            use_type_invariant(self);
        }
        self.elems.len() + 1 + self.frontier.len()
    }

    /// Stores the layer that was generated for the awaited position.
    ///
    /// Each child seed of `layer`, in visiting order, joins the end of the
    /// frontier and is replaced by the position it will have: the number of
    /// layers stored plus the length of the frontier once the seed has
    /// joined. Then the next seed leaves the frontier, or the store is
    /// complete.
    pub fn absorb<W>(self, layer: W) -> (step: Step<A, U>) where
        W: MapLayer<ArenaIndex, Child = A, To = U>,

        requires
            self@.seeds.len() + layer.children().len() <= usize::MAX,
        ensures
            match step {
                Step::Generate(state, seed) => {
                    &&& absorbed(self@, layer, state@.elems)
                    &&& state@.seeds == self@.seeds + layer.children()
                    &&& state@.elems.len() < state@.seeds.len()
                    &&& seed == state@.seeds[state@.elems.len() as int]
                },
                Step::Finished(tree) => {
                    &&& absorbed(self@, layer, tree@)
                    &&& tree@.len() == self@.seeds.len() + layer.children().len()
                },
            },
    {
        proof {
            use_type_invariant(&self);
            layer.lemma_arity();
        }
        let ghost before = self@;
        let Expansion { frontier, elems, seeds } = self;
        let mut frontier = frontier;
        let mut elems = elems;
        let ghost waiting = frontier@;
        let (rest, kids) = layer.split();
        let mut indices: Vec<ArenaIndex> = Vec::new();
        for kid in it: kids.into_iter()
            invariant
                it.seq() == layer.children(),
                indices.len() == it.index(),
                elems@ == before.elems,
                before.seeds.len() == elems@.len() + 1 + waiting.len(),
                before.seeds.len() + layer.children().len() <= usize::MAX,
                frontier@ == waiting + layer.children().subrange(0, it.index() as int),
                forall|p: int|
                    0 <= p < indices.len() ==> (#[trigger] indices@[p]).0 == before.seeds.len() + p,
        {
            frontier.push_back(kid);
            indices.push(ArenaIndex(elems.len() + frontier.len()));
            assert(frontier@ == waiting + layer.children().subrange(0, it.index() + 1));
        }
        let indexed = W::build(rest, indices);
        elems.push(indexed);
        let ghost all_seeds = before.seeds + layer.children();
        proof {
            assert(elems@.drop_last() == before.elems);
            assert(layer.children().subrange(0, layer.children().len() as int)
                == layer.children());
            lemma_numbered_grows(before.elems, elems@, before.seeds.len() as int);
        }
        match frontier.pop_front() {
            None => {
                proof {
                    lemma_numbered_well_formed(elems@);
                }
                Step::Finished(RecursiveTree::from_layers(elems))
            },
            Some(next) => {
                assert(frontier@ == all_seeds.subrange(
                    elems@.len() as int + 1,
                    all_seeds.len() as int,
                ));
                let seeds = Ghost(all_seeds);
                Step::Generate(Expansion { frontier, elems, seeds }, next)
            },
        }
    }

    /// Takes what came of generating the layer for the awaited position.
    ///
    /// A failure ends the build with that failure: nothing that was built is
    /// kept, and no further seed is handed out. A layer is stored as `absorb`
    /// says.
    pub fn advance<W, E>(self, event: Result<W, E>) -> (outcome: Result<Step<A, U>, E>) where
        W: MapLayer<ArenaIndex, Child = A, To = U>,

        requires
            event matches Ok(layer) ==> self@.seeds.len() + layer.children().len() <= usize::MAX,
        ensures
            match event {
                Err(e) => outcome == Err::<Step<A, U>, E>(e),
                Ok(layer) => outcome matches Ok(step) && match step {
                    Step::Generate(state, seed) => {
                        &&& absorbed(self@, layer, state@.elems)
                        &&& state@.seeds == self@.seeds + layer.children()
                        &&& state@.elems.len() < state@.seeds.len()
                        &&& seed == state@.seeds[state@.elems.len() as int]
                    },
                    Step::Finished(tree) => {
                        &&& absorbed(self@, layer, tree@)
                        &&& tree@.len() == self@.seeds.len() + layer.children().len()
                    },
                },
            },
    {
        match event {
            Err(e) => Err(e),
            Ok(layer) => Ok(self.absorb(layer)),
        }
    }
}

/// Storing one more layer whose children take the next free positions keeps
/// the breadth-first numbering.
pub proof fn lemma_numbered_grows<U: Layer<Child = ArenaIndex>>(
    before: Seq<U>,
    after: Seq<U>,
    total: int,
)
    requires
        numbered(before, total),
        before.len() < total,
        after.len() == before.len() + 1,
        after.drop_last() == before,
        forall|p: int|
            0 <= p < after.last().children().len() ==> (#[trigger] after.last().children()[p]).0
                == total + p,
    ensures
        numbered(after, total + after.last().children().len()),
{
    let n = before.len() as int;
    assert forall|i: int| 0 <= i <= n implies first_child(after, i) == first_child(before, i) by {
        assert forall|j: int| 0 <= j < i implies after[j] == before[j] by {
            assert(after.drop_last()[j] == after[j]);
        }
        lemma_first_child_prefix(after, before, i);
    }
    assert(first_child(after, n + 1) == first_child(after, n) + after[n].children().len());
    assert forall|i: int, p: int| is_slot(after, i, p) implies #[trigger] child_at(after, i, p)
        == first_child(after, i) + p by {
        assert(first_child(after, i) == first_child(before, i));
        if i < n {
            assert(after.drop_last()[i] == after[i]);
            assert(is_slot(before, i, p));
            assert(child_at(before, i, p) == child_at(after, i, p));
        } else {
            assert(after[i] == after.last());
        }
    }
    assert forall|i: int| 0 <= i < after.len() implies i < #[trigger] first_child(after, i) by {
        assert(first_child(after, i) == first_child(before, i));
    }
}

/// The layers that a generator may make of a seed, as a relation between
/// seed and layer.
pub open spec fn makes<W, F>(f: F) -> spec_fn(W::Child, W) -> bool where
    W: MapLayer<ArenaIndex>,
    F: Fn(W::Child) -> W,
 {
    |a: W::Child, w: W| f.ensures((a,), w)
}

/// The layers that a generator that can fail may make of a seed when it
/// does not fail.
pub open spec fn makes_ok<W, E, F>(f: F) -> spec_fn(W::Child, W) -> bool where
    W: MapLayer<ArenaIndex>,
    F: Fn(W::Child) -> Result<W, E>,
 {
    |a: W::Child, w: W| f.ensures((a,), Ok::<W, E>(w))
}

/// Whether `w` is a layer made of the seed at position `i`, and the layer
/// stored at `i` is `w` with every child seed replaced by the position of
/// that seed.
pub open spec fn generated<W: MapLayer<ArenaIndex>>(
    made: spec_fn(W::Child, W) -> bool,
    seeds: Seq<W::Child>,
    elems: Seq<W::To>,
    i: int,
    w: W,
) -> bool {
    &&& made(seeds[i], w)
    &&& w.frame() == elems[i].frame()
    &&& w.children().len() == elems[i].children().len()
    &&& forall|p: int|
        0 <= p < w.children().len() ==> #[trigger] w.children()[p] == seeds[child_at(elems, i, p)]
}

/// Whether the layer stored at position `i` comes from the seed at `i`.
pub open spec fn has_origin<W: MapLayer<ArenaIndex>>(
    made: spec_fn(W::Child, W) -> bool,
    seeds: Seq<W::Child>,
    elems: Seq<W::To>,
    i: int,
) -> bool {
    exists|w: W| generated(made, seeds, elems, i, w)
}

/// Whether `elems` are the first layers of a breadth-first unfolding of
/// `seed`, where `made` says which layers can be made of a seed, and `seeds`
/// are the seeds met so far, each at the position it was given.
pub open spec fn unfolding<W: MapLayer<ArenaIndex>>(
    made: spec_fn(W::Child, W) -> bool,
    seed: W::Child,
    elems: Seq<W::To>,
    seeds: Seq<W::Child>,
) -> bool {
    &&& elems.len() <= seeds.len()
    &&& 0 < seeds.len()
    &&& seeds[0] == seed
    &&& numbered(elems, seeds.len() as int)
    &&& forall|i: int| 0 <= i < elems.len() ==> #[trigger] has_origin(made, seeds, elems, i)
}

/// Whether `elems` is the whole breadth-first unfolding of `seed`: every
/// seed that was met has its layer.
pub open spec fn unfolds<W: MapLayer<ArenaIndex>>(
    made: spec_fn(W::Child, W) -> bool,
    seed: W::Child,
    elems: Seq<W::To>,
) -> bool {
    exists|seeds: Seq<W::Child>| #[trigger]
        unfolding(made, seed, elems, seeds) && seeds.len() == elems.len()
}

/// Whether `seed` can be unfolded under `f` on this machine: `f` accepts
/// every seed that an unfolding meets, and no unfolding gives out more
/// positions than a `usize` can count.
pub open spec fn expandable<W, F>(f: F, seed: W::Child) -> bool where
    W: MapLayer<ArenaIndex>,
    F: Fn(W::Child) -> W,
 {
    forall|elems: Seq<W::To>, seeds: Seq<W::Child>| #[trigger]
        unfolding(makes(f), seed, elems, seeds) && elems.len() < seeds.len() ==> {
            &&& f.requires((seeds[elems.len() as int],))
            &&& forall|w: W| #[trigger]
                f.ensures((seeds[elems.len() as int],), w) ==> seeds.len() + w.children().len()
                    <= usize::MAX
        }
}

/// Whether `seed` can be unfolded on this machine under `f`, which can fail:
/// `f` accepts every seed that an unfolding without failure meets, and no
/// such unfolding gives out more positions than a `usize` can count.
pub open spec fn try_expandable<W, E, F>(f: F, seed: W::Child) -> bool where
    W: MapLayer<ArenaIndex>,
    F: Fn(W::Child) -> Result<W, E>,
 {
    forall|elems: Seq<W::To>, seeds: Seq<W::Child>| #[trigger]
        unfolding(makes_ok(f), seed, elems, seeds) && elems.len() < seeds.len() ==> {
            &&& f.requires((seeds[elems.len() as int],))
            &&& forall|w: W| #[trigger]
                f.ensures((seeds[elems.len() as int],), Ok::<W, E>(w)) ==> seeds.len()
                    + w.children().len() <= usize::MAX
        }
}

/// Whether one layer only can be made of each seed.
pub open spec fn deterministic<W: MapLayer<ArenaIndex>>(made: spec_fn(W::Child, W) -> bool) -> bool {
    forall|a: W::Child, v: W, w: W| #[trigger] made(a, v) && #[trigger] made(a, w) ==> v == w
}

/// An unfolding stays one when the layer of the next seed is stored.
pub proof fn lemma_unfolding_grows<W: MapLayer<ArenaIndex>>(
    made: spec_fn(W::Child, W) -> bool,
    seed: W::Child,
    elems: Seq<W::To>,
    seeds: Seq<W::Child>,
    layer: W,
    after: Seq<W::To>,
)
    requires
        unfolding(made, seed, elems, seeds),
        elems.len() < seeds.len(),
        made(seeds[elems.len() as int], layer),
        absorbed(ExpansionView { elems, seeds }, layer, after),
    ensures
        unfolding(made, seed, after, seeds + layer.children()),
{
    let n = elems.len() as int;
    let more = seeds + layer.children();
    lemma_numbered_grows(elems, after, seeds.len() as int);
    assert(after[n] == after.last());
    assert forall|i: int| 0 <= i < after.len() implies #[trigger] has_origin(
        made,
        more,
        after,
        i,
    ) by {
        if i < n {
            assert(after.drop_last()[i] == after[i]);
            assert(has_origin(made, seeds, elems, i));
            let w = choose|w: W| generated(made, seeds, elems, i, w);
            lemma_first_child_grows(elems, i, n);
            assert forall|p: int| 0 <= p < w.children().len() implies #[trigger] w.children()[p]
                == more[child_at(after, i, p)] by {
                assert(is_slot(elems, i, p));
                assert(child_at(after, i, p) == child_at(elems, i, p));
            }
            assert(generated(made, more, after, i, w));
        } else {
            assert forall|p: int| 0 <= p < layer.children().len() implies #[trigger] layer.children()[p]
                == more[child_at(after, i, p)] by {
                assert(child_at(after, i, p) == seeds.len() + p);
            }
            assert(generated(made, more, after, i, layer));
        }
    }
}

/// The sum of the weights of some seeds.
pub open spec fn total_weight<A>(weight: spec_fn(A) -> nat, seeds: Seq<A>) -> nat
    decreases seeds.len(),
{
    if seeds.len() == 0 {
        0
    } else {
        total_weight(weight, seeds.drop_last()) + weight(seeds.last())
    }
}

/// Whether `weight` measures how much of a store a seed stands for: every
/// seed weighs at least 1, and more than the child seeds of a layer made of
/// it weigh together.
pub open spec fn shrinking<W: MapLayer<ArenaIndex>>(
    made: spec_fn(W::Child, W) -> bool,
    weight: spec_fn(W::Child) -> nat,
) -> bool {
    &&& forall|a: W::Child| #[trigger] weight(a) >= 1
    &&& forall|a: W::Child, w: W| #[trigger]
        made(a, w) ==> weight(a) >= 1 + total_weight(weight, w.children())
}

/// One seed alone weighs what it weighs.
pub proof fn lemma_total_weight_single<A>(weight: spec_fn(A) -> nat, a: A)
    ensures
        total_weight(weight, Seq::<A>::empty().push(a)) == weight(a),
{
    let single = Seq::<A>::empty().push(a);
    assert(single.drop_last() =~= Seq::<A>::empty());
    assert(total_weight(weight, Seq::<A>::empty()) == 0);
}

/// The weights of two runs of seeds add up.
pub proof fn lemma_total_weight_adds<A>(weight: spec_fn(A) -> nat, front: Seq<A>, back: Seq<A>)
    ensures
        total_weight(weight, front + back) == total_weight(weight, front) + total_weight(
            weight,
            back,
        ),
    decreases back.len(),
{
    if back.len() == 0 {
        assert(front + back =~= front);
    } else {
        assert((front + back).drop_last() =~= front + back.drop_last());
        assert((front + back).last() == back.last());
        lemma_total_weight_adds(weight, front, back.drop_last());
    }
}

/// Seeds that weigh at least 1 each weigh together at least their number.
pub proof fn lemma_total_weight_counts<A>(weight: spec_fn(A) -> nat, seeds: Seq<A>)
    requires
        forall|a: A| #[trigger] weight(a) >= 1,
    ensures
        total_weight(weight, seeds) >= seeds.len(),
    decreases seeds.len(),
{
    if seeds.len() > 0 {
        lemma_total_weight_counts(weight, seeds.drop_last());
    }
}

/// In an unfolding under a shrinking weight, the layers stored so far and
/// the seeds that still wait weigh together no more than the first seed.
proof fn lemma_weight_bounds_unfolding<W: MapLayer<ArenaIndex>>(
    made: spec_fn(W::Child, W) -> bool,
    weight: spec_fn(W::Child) -> nat,
    seed: W::Child,
    elems: Seq<W::To>,
    seeds: Seq<W::Child>,
    m: int,
)
    requires
        shrinking(made, weight),
        unfolding(made, seed, elems, seeds),
        0 <= m <= elems.len(),
    ensures
        m <= first_child(elems, m) <= seeds.len(),
        m + total_weight(weight, seeds.subrange(m, first_child(elems, m))) <= weight(seed),
    decreases m,
{
    if m == 0 {
        assert(seeds.subrange(0, 1) =~= Seq::<W::Child>::empty().push(seed));
        lemma_total_weight_single(weight, seed);
        if elems.len() > 0 {
            lemma_first_child_grows(elems, 0, elems.len() as int);
        }
    } else {
        let k = m - 1;
        lemma_weight_bounds_unfolding(made, weight, seed, elems, seeds, k);
        if m < elems.len() {
            lemma_first_child_grows(elems, k, elems.len() as int);
        }
        assert(k < first_child(elems, k));
        assert(has_origin(made, seeds, elems, k));
        let w = choose|w: W| generated(made, seeds, elems, k, w);
        let waiting = seeds.subrange(k, first_child(elems, k));
        let rest = seeds.subrange(m, first_child(elems, k));
        let next = seeds.subrange(m, first_child(elems, m));
        assert(next =~= rest + w.children()) by {
            assert forall|p: int| 0 <= p < w.children().len() implies w.children()[p] == seeds[first_child(
                elems,
                k,
            ) + p] by {
                assert(is_slot(elems, k, p));
            }
        }
        assert(waiting =~= Seq::<W::Child>::empty().push(seeds[k]) + rest);
        let first = Seq::<W::Child>::empty().push(seeds[k]);
        lemma_total_weight_single(weight, seeds[k]);
        lemma_total_weight_adds(weight, first, rest);
        lemma_total_weight_adds(weight, rest, w.children());
    }
}

/// With a shrinking weight, no unfolding gives out more positions than the
/// first seed weighs, not even with the layer that comes next.
pub proof fn lemma_weight_bounds_positions<W: MapLayer<ArenaIndex>>(
    made: spec_fn(W::Child, W) -> bool,
    weight: spec_fn(W::Child) -> nat,
    seed: W::Child,
    elems: Seq<W::To>,
    seeds: Seq<W::Child>,
    layer: W,
)
    requires
        shrinking(made, weight),
        unfolding(made, seed, elems, seeds),
        elems.len() < seeds.len(),
        made(seeds[elems.len() as int], layer),
    ensures
        seeds.len() + layer.children().len() <= weight(seed),
{
    let n = elems.len() as int;
    lemma_weight_bounds_unfolding(made, weight, seed, elems, seeds, n);
    let waiting = seeds.subrange(n, seeds.len() as int);
    let first = Seq::<W::Child>::empty().push(seeds[n]);
    let rest = seeds.subrange(n + 1, seeds.len() as int);
    assert(waiting =~= first + rest);
    lemma_total_weight_single(weight, seeds[n]);
    lemma_total_weight_adds(weight, first, rest);
    lemma_total_weight_counts(weight, rest);
    lemma_total_weight_counts(weight, layer.children());
}

/// A seed can be unfolded under a generator that accepts every seed and
/// under which some weight shrinks, where the seed weighs no more than a
/// `usize` can count.
pub proof fn lemma_shrinking_is_expandable<W, F>(f: F, weight: spec_fn(W::Child) -> nat, seed: W::Child) where
    W: MapLayer<ArenaIndex>,
    F: Fn(W::Child) -> W,

    requires
        forall|a: W::Child| f.requires((a,)),
        shrinking(makes(f), weight),
        weight(seed) <= usize::MAX,
    ensures
        expandable(f, seed),
{
    assert forall|elems: Seq<W::To>, seeds: Seq<W::Child>| #[trigger]
        unfolding(makes(f), seed, elems, seeds) && elems.len() < seeds.len() implies {
        &&& f.requires((seeds[elems.len() as int],))
        &&& forall|w: W| #[trigger]
            f.ensures((seeds[elems.len() as int],), w) ==> seeds.len() + w.children().len()
                <= usize::MAX
    } by {
        assert forall|w: W| #[trigger]
            f.ensures((seeds[elems.len() as int],), w) implies seeds.len() + w.children().len()
            <= usize::MAX by {
            lemma_weight_bounds_positions(makes(f), weight, seed, elems, seeds, w);
        }
    }
}

/// The same for a generator that can fail, where the weight shrinks
/// whenever the generator does not fail.
pub proof fn lemma_shrinking_is_try_expandable<W, E, F>(
    f: F,
    weight: spec_fn(W::Child) -> nat,
    seed: W::Child,
) where W: MapLayer<ArenaIndex>, F: Fn(W::Child) -> Result<W, E>
    requires
        forall|a: W::Child| f.requires((a,)),
        shrinking(makes_ok(f), weight),
        weight(seed) <= usize::MAX,
    ensures
        try_expandable(f, seed),
{
    assert forall|elems: Seq<W::To>, seeds: Seq<W::Child>| #[trigger]
        unfolding(makes_ok(f), seed, elems, seeds) && elems.len() < seeds.len() implies {
        &&& f.requires((seeds[elems.len() as int],))
        &&& forall|w: W| #[trigger]
            f.ensures((seeds[elems.len() as int],), Ok::<W, E>(w)) ==> seeds.len()
                + w.children().len() <= usize::MAX
    } by {
        assert forall|w: W| #[trigger]
            f.ensures((seeds[elems.len() as int],), Ok::<W, E>(w)) implies seeds.len()
            + w.children().len() <= usize::MAX by {
            lemma_weight_bounds_positions(makes_ok(f), weight, seed, elems, seeds, w);
        }
    }
}

/// Whether two stores hold, position for position, layers with the same
/// frame and the same children.
pub open spec fn same_layers<U: Layer<Child = ArenaIndex>>(first: Seq<U>, second: Seq<U>) -> bool {
    &&& first.len() == second.len()
    &&& forall|i: int|
        0 <= i < first.len() ==> (#[trigger] first[i]).frame() == second[i].frame()
            && first[i].children() == second[i].children()
}

/// Two unfoldings of one seed, where one layer only can be made of each
/// seed, hold the same layers at the first `m` positions, and the same seeds
/// at every position given out by then.
proof fn lemma_unfoldings_agree<W: MapLayer<ArenaIndex>>(
    made: spec_fn(W::Child, W) -> bool,
    seed: W::Child,
    ea: Seq<W::To>,
    sa: Seq<W::Child>,
    eb: Seq<W::To>,
    sb: Seq<W::Child>,
    m: int,
)
    requires
        deterministic(made),
        unfolding(made, seed, ea, sa),
        unfolding(made, seed, eb, sb),
        0 <= m <= ea.len(),
        m <= eb.len(),
    ensures
        forall|i: int|
            0 <= i < m ==> (#[trigger] ea[i]).frame() == eb[i].frame() && ea[i].children()
                == eb[i].children(),
        first_child(ea, m) == first_child(eb, m),
        first_child(ea, m) <= sa.len(),
        first_child(ea, m) <= sb.len(),
        forall|j: int| 0 <= j < first_child(ea, m) ==> sa[j] == sb[j],
    decreases m,
{
    if m > 0 {
        let k = m - 1;
        lemma_unfoldings_agree(made, seed, ea, sa, eb, sb, k);
        assert(has_origin(made, sa, ea, k));
        assert(has_origin(made, sb, eb, k));
        let va = choose|w: W| generated(made, sa, ea, k, w);
        let vb = choose|w: W| generated(made, sb, eb, k, w);
        assert(k < first_child(ea, k));
        assert(sa[k] == sb[k]);
        assert(va == vb);
        assert forall|p: int| 0 <= p < ea[k].children().len() implies ea[k].children()[p]
            == eb[k].children()[p] by {
            assert(is_slot(ea, k, p));
            assert(is_slot(eb, k, p));
            assert(child_at(ea, k, p) == child_at(eb, k, p));
        }
        assert(ea[k].children() =~= eb[k].children());
        if m < ea.len() {
            lemma_first_child_grows(ea, k, ea.len() as int);
        }
        if m < eb.len() {
            lemma_first_child_grows(eb, k, eb.len() as int);
        }
        assert forall|j: int| 0 <= j < first_child(ea, m) implies sa[j] == sb[j] by {
            if j >= first_child(ea, k) {
                let p = j - first_child(ea, k);
                assert(is_slot(ea, k, p));
                assert(is_slot(eb, k, p));
                assert(va.children()[p] == sa[child_at(ea, k, p)]);
                assert(vb.children()[p] == sb[child_at(eb, k, p)]);
            }
        }
    }
}

/// Where one layer only can be made of each seed, a seed has one store only:
/// two complete unfoldings of the same seed have the same length and hold,
/// position for position, the same frame and the same children.
pub proof fn lemma_expand_deterministic<W: MapLayer<ArenaIndex>>(
    made: spec_fn(W::Child, W) -> bool,
    seed: W::Child,
    first: Seq<W::To>,
    second: Seq<W::To>,
)
    requires
        deterministic(made),
        unfolds(made, seed, first),
        unfolds(made, seed, second),
    ensures
        same_layers(first, second),
{
    let sa = choose|seeds: Seq<W::Child>| #[trigger]
        unfolding(made, seed, first, seeds) && seeds.len() == first.len();
    let sb = choose|seeds: Seq<W::Child>| #[trigger]
        unfolding(made, seed, second, seeds) && seeds.len() == second.len();
    let m = if first.len() <= second.len() {
        first.len() as int
    } else {
        second.len() as int
    };
    lemma_unfoldings_agree(made, seed, first, sa, second, sb, m);
}

impl<U: Layer<Child = ArenaIndex>> RecursiveTree<U> {
    /// Unfolds `a` into a store, breadth-first.
    ///
    /// The seed `a` gets position 0. The layers are generated in the order of
    /// their positions; each child seed of a layer gets the next free
    /// position and takes its place in the layer as that position.
    pub fn expand_layers<A, W, F>(a: A, expand_layer: F) -> (tree: Self) where
        W: MapLayer<ArenaIndex, Child = A, To = U>,
        F: Fn(A) -> W,

        requires
            expandable(expand_layer, a),
        ensures
            unfolds(makes(expand_layer), a, tree@),
            well_formed(tree@, 0),
            forall|i: int, p: int| is_slot(tree@, i, p) ==> i < #[trigger] child_at(tree@, i, p),
            forall|i: int, p: int| is_slot(tree@, i, p) ==> #[trigger] child_at(tree@, i, p) != 0,
    {
        let ghost made = makes(expand_layer);
        let (first, seed) = Expansion::<A, U>::start(a);
        let mut state = first;
        let mut seed = seed;
        assert(unfolding(made, a, state@.elems, state@.seeds));
        loop
            invariant
                made == makes(expand_layer),
                expandable(expand_layer, a),
                unfolding(made, a, state@.elems, state@.seeds),
                state@.elems.len() < state@.seeds.len() <= usize::MAX,
                seed == state@.seeds[state@.elems.len() as int],
            decreases usize::MAX - state@.elems.len(),
        {
            let ghost before = state@;
            let layer = expand_layer(seed);
            match state.absorb(layer) {
                Step::Finished(tree) => {
                    proof {
                        lemma_unfolding_grows(made, a, before.elems, before.seeds, layer, tree@);
                        lemma_numbered_well_formed(tree@);
                    }
                    return tree;
                },
                Step::Generate(next, wanted) => {
                    proof {
                        lemma_unfolding_grows(
                            made,
                            a,
                            before.elems,
                            before.seeds,
                            layer,
                            next@.elems,
                        );
                    }
                    state = next;
                    seed = wanted;
                },
            }
        }
    }

    /// Unfolds `a` into a store, breadth-first, with a generator that can
    /// fail.
    ///
    /// The layers are generated one at a time in the order of their
    /// positions, as `expand_layers` does. The first failure ends the build
    /// and is the result: no layer is generated after it, and nothing of what
    /// was built is handed out.
    pub fn try_expand_layers<A, W, E, F>(a: A, generate_layer: F) -> (built: Result<Self, E>) where
        W: MapLayer<ArenaIndex, Child = A, To = U>,
        F: Fn(A) -> Result<W, E>,

        requires
            try_expandable(generate_layer, a),
        ensures
            match built {
                Ok(tree) => unfolds(makes_ok(generate_layer), a, tree@) && well_formed(tree@, 0),
                Err(e) => exists|elems: Seq<U>, seeds: Seq<A>| #[trigger]
                    unfolding(makes_ok(generate_layer), a, elems, seeds) && elems.len()
                        < seeds.len() && generate_layer.ensures(
                        (seeds[elems.len() as int],),
                        Err::<W, E>(e),
                    ),
            },
    {
        let ghost made = makes_ok(generate_layer);
        let (first, seed) = Expansion::<A, U>::start(a);
        let mut state = first;
        let mut seed = seed;
        assert(unfolding(made, a, state@.elems, state@.seeds));
        loop
            invariant
                made == makes_ok(generate_layer),
                try_expandable(generate_layer, a),
                unfolding(made, a, state@.elems, state@.seeds),
                state@.elems.len() < state@.seeds.len() <= usize::MAX,
                seed == state@.seeds[state@.elems.len() as int],
            decreases usize::MAX - state@.elems.len(),
        {
            let ghost before = state@;
            let event = generate_layer(seed);
            match state.advance(event) {
                Err(e) => {
                    return Err(e);
                },
                Ok(Step::Finished(tree)) => {
                    proof {
                        let layer = event->Ok_0;
                        lemma_unfolding_grows(made, a, before.elems, before.seeds, layer, tree@);
                        lemma_numbered_well_formed(tree@);
                    }
                    return Ok(tree);
                },
                Ok(Step::Generate(next, wanted)) => {
                    proof {
                        let layer = event->Ok_0;
                        lemma_unfolding_grows(
                            made,
                            a,
                            before.elems,
                            before.seeds,
                            layer,
                            next@.elems,
                        );
                    }
                    state = next;
                    seed = wanted;
                },
            }
        }
    }
}

} // verus!
