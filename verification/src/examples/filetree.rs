//! The structure of a file tree: files with what is known of them, and
//! directories with their named entries. No file contents, and no entry
//! holds its full path.

use crate::map_layer::{Layer, MapLayer, MapLayerRef};
use crate::recursive_tree::arena_eval::{folded, handed, ArenaIndex};
use crate::recursive_tree::depth::{greatest, height, lemma_fold_is_height, lemma_height_bound};
use crate::recursive_tree::{child_at, is_slot, RecursiveTree};
use vstd::prelude::*;

verus! {

/// What is known of a file besides its name.
#[derive(Debug, Clone, Copy)]
pub struct FileMeta {
    /// The size of the file in bytes.
    pub len: u64,
}

/// One level of a file tree: a file, or a directory with its entries by
/// name, in a fixed order.
#[derive(Debug)]
pub enum FileTree<A> {
    File(FileMeta),
    Dir(Vec<(String, A)>),
}

/// One level of a borrowed file tree: the names and what is known of a file
/// stay where they are.
#[derive(Debug)]
pub enum FileTreeRef<'a, A> {
    File(&'a FileMeta),
    Dir(Vec<(&'a String, A)>),
}

/// What one level of a file tree is besides its children: what is known of
/// the file, or the names of the entries of the directory.
pub enum FileShape {
    File(FileMeta),
    Dir(Seq<Seq<char>>),
}

/// What is left of one level of a file tree when its children are taken
/// out.
pub enum FileRest {
    File(FileMeta),
    Dir(Vec<String>),
}

/// The names of the entries of a directory, in order.
pub open spec fn names_of<A>(entries: Seq<(String, A)>) -> Seq<Seq<char>> {
    Seq::new(entries.len(), |j: int| entries[j].0@)
}

/// What the entries of a directory hold under their names, in order.
pub open spec fn held_by<A>(entries: Seq<(String, A)>) -> Seq<A> {
    Seq::new(entries.len(), |j: int| entries[j].1)
}

/// The names of the entries of a borrowed directory, in order.
pub open spec fn names_of_ref<'a, A>(entries: Seq<(&'a String, A)>) -> Seq<Seq<char>> {
    Seq::new(entries.len(), |j: int| entries[j].0@)
}

/// What the entries of a borrowed directory hold under their names, in
/// order.
pub open spec fn held_by_ref<'a, A>(entries: Seq<(&'a String, A)>) -> Seq<A> {
    Seq::new(entries.len(), |j: int| entries[j].1)
}

/// The views of some strings, in order.
pub open spec fn views_of(names: Seq<String>) -> Seq<Seq<char>> {
    Seq::new(names.len(), |j: int| names[j]@)
}

/// How many children a level of this shape has.
pub open spec fn shape_arity(shape: FileShape) -> nat {
    match shape {
        FileShape::File(_) => 0,
        FileShape::Dir(names) => names.len(),
    }
}

impl<A> FileTree<A> {
    /// Whether no name stands for two entries of this level, as in a
    /// directory.
    pub open spec fn distinct_names(&self) -> bool {
        match self {
            FileTree::File(_) => true,
            FileTree::Dir(entries) => forall|i: int, j: int|
                0 <= i < j < entries@.len() ==> (#[trigger] entries@[i]).0@ != (
                #[trigger] entries@[j]).0@,
        }
    }

    /// Tells whether no name stands for two entries of this level.
    pub fn has_distinct_names(&self) -> (distinct: bool)
        ensures
            distinct == self.distinct_names(),
    {
        match self {
            FileTree::File(_) => true,
            FileTree::Dir(entries) => {
                let n = entries.len();
                for j in 0..n
                    invariant
                        *self == FileTree::Dir(*entries),
                        n == entries@.len(),
                        forall|a: int, b: int|
                            0 <= a < b < j ==> (#[trigger] entries@[a]).0@ != (
                            #[trigger] entries@[b]).0@,
                {
                    for i in 0..j
                        invariant
                            *self == FileTree::Dir(*entries),
                            j < n,
                            n == entries@.len(),
                            forall|a: int, b: int|
                                0 <= a < b < j ==> (#[trigger] entries@[a]).0@ != (
                                #[trigger] entries@[b]).0@,
                            forall|a: int| 0 <= a < i ==> (#[trigger] entries@[a]).0@ != entries@[j as int].0@,
                    {
                        if same_name(&entries[i].0, &entries[j].0) {
                            assert(entries@[i as int].0@ == entries@[j as int].0@);
                            assert(self matches FileTree::Dir(es) && es == entries);
                            return false;
                        }
                    }
                }
                true
            },
        }
    }
}

/// Replacing the children of a level keeps its names: two levels with the
/// same frame both have distinct names, or neither has.
pub proof fn lemma_names_stay_distinct<A, B>(before: FileTree<A>, after: FileTree<B>)
    requires
        before.frame() == after.frame(),
    ensures
        before.distinct_names() == after.distinct_names(),
{
    match (before, after) {
        (FileTree::Dir(olds), FileTree::Dir(news)) => {
            assert(names_of(olds@) == names_of(news@));
            assert(olds@.len() == news@.len());
            assert forall|j: int| 0 <= j < olds@.len() implies (#[trigger] olds@[j]).0@
                == news@[j].0@ by {
                assert(names_of(olds@)[j] == names_of(news@)[j]);
            }
            assert forall|j: int| 0 <= j < news@.len() implies (#[trigger] news@[j]).0@
                == olds@[j].0@ by {
                assert(names_of(olds@)[j] == names_of(news@)[j]);
            }
        },
        _ => {},
    }
}

/// Tells whether two names are the same string.
fn same_name(a: &String, b: &String) -> (same: bool)
    ensures
        same == (a@ == b@),
{
    *a == *b
}

impl<A> Layer for FileTree<A> {
    type Child = A;

    type Frame = FileShape;

    open spec fn frame(&self) -> FileShape {
        match self {
            FileTree::File(meta) => FileShape::File(*meta),
            FileTree::Dir(entries) => FileShape::Dir(names_of(entries@)),
        }
    }

    open spec fn children(&self) -> Seq<A> {
        match self {
            FileTree::File(_) => seq![],
            FileTree::Dir(entries) => held_by(entries@),
        }
    }

    open spec fn arity(frame: FileShape) -> nat {
        shape_arity(frame)
    }

    proof fn lemma_arity(&self) {
    }

    fn child_count(&self) -> (count: usize) {
        match self {
            FileTree::File(_) => 0,
            FileTree::Dir(entries) => entries.len(),
        }
    }

    fn child_list(&self) -> (list: Vec<A>) where A: Copy {
        let mut list: Vec<A> = Vec::new();
        match self {
            FileTree::File(_) => {},
            FileTree::Dir(entries) => {
                for j in 0..entries.len()
                    invariant
                        list@ == held_by(entries@).take(j as int),
                {
                    list.push(entries[j].1);
                    assert(held_by(entries@).take(j + 1) == held_by(entries@).take(
                        j as int,
                    ).push(entries@[j as int].1));
                }
                assert(held_by(entries@).take(entries@.len() as int) == held_by(entries@));
            },
        }
        assert(list@ =~= self.children());
        list
    }
}

impl<'a, A> Layer for FileTreeRef<'a, A> {
    type Child = A;

    type Frame = FileShape;

    open spec fn frame(&self) -> FileShape {
        match self {
            FileTreeRef::File(meta) => FileShape::File(**meta),
            FileTreeRef::Dir(entries) => FileShape::Dir(names_of_ref(entries@)),
        }
    }

    open spec fn children(&self) -> Seq<A> {
        match self {
            FileTreeRef::File(_) => seq![],
            FileTreeRef::Dir(entries) => held_by_ref(entries@),
        }
    }

    open spec fn arity(frame: FileShape) -> nat {
        shape_arity(frame)
    }

    proof fn lemma_arity(&self) {
    }

    fn child_count(&self) -> (count: usize) {
        match self {
            FileTreeRef::File(_) => 0,
            FileTreeRef::Dir(entries) => entries.len(),
        }
    }

    fn child_list(&self) -> (list: Vec<A>) where A: Copy {
        let mut list: Vec<A> = Vec::new();
        match self {
            FileTreeRef::File(_) => {},
            FileTreeRef::Dir(entries) => {
                for j in 0..entries.len()
                    invariant
                        list@ == held_by_ref(entries@).take(j as int),
                {
                    list.push(entries[j].1);
                    assert(held_by_ref(entries@).take(j + 1) == held_by_ref(entries@).take(
                        j as int,
                    ).push(entries@[j as int].1));
                }
                assert(held_by_ref(entries@).take(entries@.len() as int) == held_by_ref(
                    entries@,
                ));
            },
        }
        assert(list@ =~= self.children());
        list
    }
}

impl<A, B> MapLayer<B> for FileTree<A> {
    type To = FileTree<B>;

    type Rest = FileRest;

    open spec fn rest_frame(rest: &FileRest) -> FileShape {
        match rest {
            FileRest::File(meta) => FileShape::File(*meta),
            FileRest::Dir(names) => FileShape::Dir(views_of(names@)),
        }
    }

    fn split(self) -> (parts: (FileRest, Vec<A>)) {
        match self {
            FileTree::File(meta) => {
                let children: Vec<A> = Vec::new();
                assert(children@ =~= self.children());
                (FileRest::File(meta), children)
            },
            FileTree::Dir(entries) => {
                let mut names: Vec<String> = Vec::new();
                let mut children: Vec<A> = Vec::new();
                for entry in it: entries.into_iter()
                    invariant
                        it.seq() == entries@,
                        names@.len() == it.index(),
                        children@.len() == it.index(),
                        forall|j: int| 0 <= j < it.index() ==> #[trigger] names@[j] == entries@[j].0,
                        forall|j: int|
                            0 <= j < it.index() ==> #[trigger] children@[j] == entries@[j].1,
                {
                    let (name, child) = entry;
                    names.push(name);
                    children.push(child);
                }
                assert(views_of(names@) =~= names_of(entries@));
                assert(children@ =~= held_by(entries@));
                (FileRest::Dir(names), children)
            },
        }
    }

    fn build(rest: FileRest, children: Vec<B>) -> (to: FileTree<B>) {
        match rest {
            FileRest::File(meta) => {
                assert(children@ =~= Seq::<B>::empty());
                FileTree::File(meta)
            },
            FileRest::Dir(names) => {
                let ghost named = names@;
                let ghost held = children@;
                let mut names = names;
                let mut children = children;
                let mut backwards: Vec<(String, B)> = Vec::new();
                while names.len() > 0
                    invariant
                        names@.len() == children@.len(),
                        names@.len() + backwards@.len() == named.len(),
                        names@ == named.take(names@.len() as int),
                        children@ == held.take(names@.len() as int),
                        named.len() == held.len(),
                        forall|j: int|
                            0 <= j < backwards@.len() ==> (#[trigger] backwards@[j]) == (
                                named[named.len() - 1 - j],
                                held[named.len() - 1 - j],
                            ),
                    decreases names@.len(),
                {
                    let name = names.pop().unwrap();
                    let child = children.pop().unwrap();
                    backwards.push((name, child));
                }
                let mut entries: Vec<(String, B)> = Vec::new();
                while backwards.len() > 0
                    invariant
                        named.len() == held.len(),
                        entries@.len() + backwards@.len() == named.len(),
                        forall|j: int|
                            0 <= j < backwards@.len() ==> (#[trigger] backwards@[j]) == (
                                named[named.len() - 1 - j],
                                held[named.len() - 1 - j],
                            ),
                        forall|j: int|
                            0 <= j < entries@.len() ==> (#[trigger] entries@[j]) == (
                                named[j],
                                held[j],
                            ),
                    decreases backwards@.len(),
                {
                    let entry = backwards.pop().unwrap();
                    entries.push(entry);
                }
                assert(names_of(entries@) =~= views_of(named));
                assert(held_by(entries@) =~= held);
                FileTree::Dir(entries)
            },
        }
    }
}

impl<'a, A, B> MapLayerRef<'a, B> for FileTree<A> {
    type ToRef = FileTreeRef<'a, B>;

    fn build_ref(&'a self, children: Vec<B>) -> (to: FileTreeRef<'a, B>) {
        match self {
            FileTree::File(meta) => {
                assert(children@ =~= Seq::<B>::empty());
                FileTreeRef::File(meta)
            },
            FileTree::Dir(entries) => {
                let mut named: Vec<(&'a String, B)> = Vec::new();
                let mut j: usize = 0;
                assert(entries.len() <= usize::MAX);
                for child in it: children.into_iter()
                    invariant
                        it.seq() == children@,
                        children@.len() == entries@.len(),
                        entries@.len() <= usize::MAX,
                        j == it.index(),
                        named@.len() == j,
                        forall|k: int|
                            0 <= k < j ==> (#[trigger] named@[k]) == (
                                &entries@[k].0,
                                children@[k],
                            ),
                {
                    named.push((&entries[j].0, child));
                    j += 1;
                }
                assert(names_of_ref(named@) =~= names_of(entries@));
                assert(held_by_ref(named@) =~= children@);
                FileTreeRef::Dir(named)
            },
        }
    }
}

/// A file tree in a store.
pub type RecursiveFileTree = RecursiveTree<FileTree<ArenaIndex>>;

/// The depth of one level, given the depths of its children: one more than
/// the greatest of them.
fn one_deeper(node: FileTreeRef<'_, usize>) -> (d: usize)
    requires
        forall|p: int| 0 <= p < node.children().len() ==> #[trigger] node.children()[p] < usize::MAX,
    ensures
        d == 1 + greatest(node.children()),
{
    match node {
        FileTreeRef::Dir(depths) => {
            let mut deepest: usize = 0;
            assert(node.children() == held_by_ref(depths@));
            for j in 0..depths.len()
                invariant
                    deepest == greatest(held_by_ref(depths@).take(j as int)),
                    forall|p: int|
                        0 <= p < depths@.len() ==> #[trigger] held_by_ref(depths@)[p] < usize::MAX,
            {
                assert(held_by_ref(depths@).take(j + 1).drop_last() == held_by_ref(depths@).take(
                    j as int,
                ));
                assert(held_by_ref(depths@)[j as int] == depths@[j as int].1);
                if depths[j].1 > deepest {
                    deepest = depths[j].1;
                }
            }
            assert(held_by_ref(depths@).take(depths@.len() as int) == held_by_ref(depths@));
            assert(deepest <= usize::MAX - 1) by {
                lemma_greatest_below(held_by_ref(depths@), (usize::MAX - 1) as nat);
            }
            deepest + 1
        },
        FileTreeRef::File(_) => 1,
    }
}

/// The greatest of some numbers is no greater than a bound on all of them.
proof fn lemma_greatest_below(numbers: Seq<usize>, bound: nat)
    requires
        forall|p: int| 0 <= p < numbers.len() ==> #[trigger] numbers[p] <= bound,
    ensures
        greatest(numbers) <= bound,
    decreases numbers.len(),
{
    if numbers.len() > 0 {
        let fewer = numbers.drop_last();
        assert forall|p: int| 0 <= p < fewer.len() implies #[trigger] fewer[p] <= bound by {
            assert(fewer[p] == numbers[p]);
        }
        lemma_greatest_below(fewer, bound);
    }
}

/// The depth of a file tree: the number of levels on the longest way from
/// the root down to a file or an empty directory.
pub fn depth(tree: &RecursiveFileTree) -> (d: usize)
    ensures
        d == height(tree@, 0),
{
    let borrowed = tree.as_ref();
    let ghost elems = borrowed@;
    proof {
        assert forall|vals: Seq<usize>, i: int, w: FileTreeRef<'_, usize>|
            0 <= i < elems.len() && folded::<FileTree<ArenaIndex>, FileTreeRef<'_, usize>, usize, _>(
                elems,
                0,
                one_deeper,
                vals,
                i + 1,
            ) && #[trigger] handed(elems, 0, vals, i, w) implies one_deeper.requires((w,)) by {
            assert forall|p: int| 0 <= p < w.children().len() implies #[trigger] w.children()[p]
                < usize::MAX by {
                assert(is_slot(elems, i, p));
                let c = child_at(elems, i, p);
                lemma_fold_is_height::<FileTree<ArenaIndex>, FileTreeRef<'_, usize>, _>(
                    elems,
                    one_deeper,
                    vals,
                    i + 1,
                    c,
                );
                lemma_height_bound(elems, c);
            }
        }
    }
    let d = borrowed.collapse_layers(one_deeper);
    proof {
        let vals = choose|vals: Seq<usize>| #[trigger]
            folded::<FileTree<ArenaIndex>, FileTreeRef<'_, usize>, usize, _>(
                elems,
                0,
                one_deeper,
                vals,
                0,
            ) && vals[0] == d;
        lemma_fold_is_height::<FileTree<ArenaIndex>, FileTreeRef<'_, usize>, _>(
            elems,
            one_deeper,
            vals,
            0,
            0,
        );
    }
    d
}

} // verus!
