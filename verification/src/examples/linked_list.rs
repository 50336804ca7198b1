//! A string as a linked list of characters, kept in a store: a minimal node
//! shape with at most one child.

use crate::map_layer::{Layer, MapLayer, MapLayerRef};
use crate::recursive_tree::arena_eval::{folded, handed, reduced, ArenaIndex};
use crate::recursive_tree::expand::{
    first_child, generated, has_origin, lemma_first_child_grows, lemma_shrinking_is_expandable,
    lemma_total_weight_single, makes, total_weight, unfolding,
};
use crate::recursive_tree::{child_at, is_slot, well_formed, RecursiveTree};
use vstd::prelude::*;

verus! {

/// One link of a list of characters: a character and the rest of the list,
/// or the end of the list.
#[derive(Debug, Clone, Copy)]
pub enum CharLinkedList<A> {
    Cons(char, A),
    Nil,
}

impl<A> Layer for CharLinkedList<A> {
    type Child = A;

    type Frame = Option<char>;

    open spec fn frame(&self) -> Option<char> {
        match self {
            CharLinkedList::Cons(c, _) => Some(*c),
            CharLinkedList::Nil => None,
        }
    }

    open spec fn children(&self) -> Seq<A> {
        match self {
            CharLinkedList::Cons(_, rest) => seq![*rest],
            CharLinkedList::Nil => seq![],
        }
    }

    open spec fn arity(frame: Option<char>) -> nat {
        if frame is Some {
            1
        } else {
            0
        }
    }

    proof fn lemma_arity(&self) {
    }

    fn child_count(&self) -> (count: usize) {
        match self {
            CharLinkedList::Cons(_, _) => 1,
            CharLinkedList::Nil => 0,
        }
    }

    fn child_list(&self) -> (list: Vec<A>) where A: Copy {
        let mut list: Vec<A> = Vec::new();
        match self {
            CharLinkedList::Cons(_, rest) => {
                list.push(*rest);
            },
            CharLinkedList::Nil => {},
        }
        assert(list@ =~= self.children());
        list
    }
}

impl<A, B> MapLayer<B> for CharLinkedList<A> {
    type To = CharLinkedList<B>;

    type Rest = Option<char>;

    open spec fn rest_frame(rest: &Option<char>) -> Option<char> {
        *rest
    }

    fn split(self) -> (parts: (Option<char>, Vec<A>)) {
        let mut children: Vec<A> = Vec::new();
        match self {
            CharLinkedList::Cons(c, rest) => {
                children.push(rest);
                assert(children@ =~= self.children());
                (Some(c), children)
            },
            CharLinkedList::Nil => {
                assert(children@ =~= self.children());
                (None, children)
            },
        }
    }

    fn build(rest: Option<char>, children: Vec<B>) -> (to: CharLinkedList<B>) {
        let mut children = children;
        match rest {
            Some(c) => {
                let ghost given = children@;
                let child = children.pop().unwrap();
                assert(given =~= seq![child]);
                CharLinkedList::Cons(c, child)
            },
            None => {
                assert(children@ =~= Seq::<B>::empty());
                CharLinkedList::Nil
            },
        }
    }
}

impl<'a, A, B> MapLayerRef<'a, B> for CharLinkedList<A> {
    type ToRef = CharLinkedList<B>;

    fn build_ref(&'a self, children: Vec<B>) -> (to: CharLinkedList<B>) {
        let mut children = children;
        match self {
            CharLinkedList::Cons(c, _) => {
                let ghost given = children@;
                let child = children.pop().unwrap();
                assert(given =~= seq![child]);
                CharLinkedList::Cons(*c, child)
            },
            CharLinkedList::Nil => {
                assert(children@ =~= Seq::<B>::empty());
                CharLinkedList::Nil
            },
        }
    }
}

/// A string in a store, one character to a layer.
pub type RecursiveString = RecursiveTree<CharLinkedList<ArenaIndex>>;

/// The link that the store of the list of `s` holds at position `i`: the
/// character at `i`, pointing to the next position, or the end of the list
/// behind the last character.
pub open spec fn link_of(s: Seq<char>, i: int) -> CharLinkedList<ArenaIndex> {
    if 0 <= i < s.len() {
        CharLinkedList::Cons(s[i], ArenaIndex((i + 1) as usize))
    } else {
        CharLinkedList::Nil
    }
}

/// Whether `elems` is the store of the list of the characters `s`.
pub open spec fn encodes(elems: Seq<CharLinkedList<ArenaIndex>>, s: Seq<char>) -> bool {
    &&& elems.len() == s.len() + 1
    &&& forall|i: int| 0 <= i <= s.len() ==> #[trigger] elems[i] == link_of(s, i)
}

/// The characters of the list that begins at position `i` of a store.
pub open spec fn spell(elems: Seq<CharLinkedList<ArenaIndex>>, i: int) -> Seq<char>
    decreases elems.len() - i,
{
    if 0 <= i < elems.len() {
        match elems[i] {
            CharLinkedList::Cons(c, rest) => if i < rest.0 < elems.len() {
                seq![c] + spell(elems, rest.0 as int)
            } else {
                seq![c]
            },
            CharLinkedList::Nil => seq![],
        }
    } else {
        seq![]
    }
}

/// The link that begins the list of the characters of `s` from `pos` on,
/// with the position behind `pos` as the seed of the rest.
pub open spec fn link_at(s: Seq<char>, pos: usize) -> CharLinkedList<usize> {
    if pos < s.len() {
        CharLinkedList::Cons(s[pos as int], (pos + 1) as usize)
    } else {
        CharLinkedList::Nil
    }
}

/// How many links the list of the characters of `s` from `pos` on has, the
/// end of the list counted.
pub open spec fn left_from(s: Seq<char>, pos: usize) -> nat {
    if pos <= s.len() {
        (s.len() - pos + 1) as nat
    } else {
        1
    }
}

/// The characters of a string, in order.
fn chars_of(s: &str) -> (chars: Vec<char>)
    ensures
        chars@ == s@,
{
    let mut chars: Vec<char> = Vec::new();
    for c in it: s.chars()
        invariant
            it.seq() == s@,
            chars@ == s@.take(it.index() as int),
    {
        chars.push(c);
        assert(s@.take(it.index() + 1) == s@.take(it.index() as int).push(c));
    }
    assert(s@.take(s@.len() as int) == s@);
    chars
}

/// Puts a string into a store as a list of characters.
pub fn from_str(s: &str) -> (list: RecursiveString)
    requires
        s@.len() < usize::MAX,
    ensures
        encodes(list@, s@),
{
    let chars = chars_of(s);
    let link = |pos: usize| -> (layer: CharLinkedList<usize>)
        ensures
            layer == link_at(chars@, pos),
        {
            if pos < chars.len() {
                CharLinkedList::Cons(chars[pos], pos + 1)
            } else {
                CharLinkedList::Nil
            }
        };
    proof {
        let left = |pos: usize| left_from(chars@, pos);
        assert forall|pos: usize, w: CharLinkedList<usize>| #[trigger]
            makes(link)(pos, w) implies left(pos) >= 1 + total_weight(left, w.children()) by {
            if pos < chars@.len() {
                lemma_total_weight_single(left, (pos + 1) as usize);
                assert(w.children() =~= Seq::<usize>::empty().push((pos + 1) as usize));
            } else {
                assert(w.children() =~= Seq::<usize>::empty());
            }
        }
        lemma_shrinking_is_expandable(link, left, 0usize);
    }
    let list = RecursiveTree::expand_layers(0usize, link);
    proof {
        let seeds = choose|seeds: Seq<usize>| #[trigger]
            unfolding(makes(link), 0usize, list@, seeds) && seeds.len() == list@.len();
        lemma_list_unfolding(makes(link), chars@, list@, seeds, list@.len() as int);
        let n = list@.len() as int;
        assert(first_child(list@, n - 1) == n);
        assert(list@[n - 1].children().len() == 0);
        assert(list@[n - 1] == link_of(s@, n - 1));
    }
    list
}

/// What an unfolding of position 0 under the generator of links holds at
/// its first `m` positions: the links of `s`, and as seeds the positions
/// themselves.
proof fn lemma_list_unfolding(
    made: spec_fn(usize, CharLinkedList<usize>) -> bool,
    s: Seq<char>,
    elems: Seq<CharLinkedList<ArenaIndex>>,
    seeds: Seq<usize>,
    m: int,
)
    requires
        s.len() < usize::MAX,
        forall|pos: usize, w: CharLinkedList<usize>| #[trigger] made(pos, w) ==> w == link_at(s, pos),
        unfolding(made, 0usize, elems, seeds),
        0 <= m <= elems.len(),
    ensures
        forall|i: int| 0 <= i < m ==> i <= s.len() && #[trigger] elems[i] == link_of(s, i),
        forall|i: int| 0 <= i < m ==> #[trigger] first_child(elems, i) == i + 1,
        first_child(elems, m) <= m + 1,
        first_child(elems, m) <= seeds.len(),
        forall|j: int| 0 <= j < first_child(elems, m) ==> #[trigger] seeds[j] == j && j <= s.len(),
    decreases m,
{
    if m > 0 {
        let k = m - 1;
        lemma_list_unfolding(made, s, elems, seeds, k);
        assert(k < first_child(elems, k));
        assert(seeds[k] == k);
        assert(has_origin(made, seeds, elems, k));
        let w = choose|w: CharLinkedList<usize>| generated(made, seeds, elems, k, w);
        assert(w == link_at(s, k as usize));
        if m < elems.len() {
            lemma_first_child_grows(elems, k, elems.len() as int);
        }
        match elems[k] {
            CharLinkedList::Cons(c, next) => {
                assert(is_slot(elems, k, 0));
                assert(child_at(elems, k, 0) == next.0);
                assert(w.children()[0] == seeds[child_at(elems, k, 0)]);
            },
            CharLinkedList::Nil => {},
        }
    }
}

/// The characters that a link stands for when the rest of the list is
/// already a string.
pub open spec fn joined(layer: CharLinkedList<String>) -> Seq<char> {
    match layer {
        CharLinkedList::Cons(c, rest) => seq![c] + rest@,
        CharLinkedList::Nil => seq![],
    }
}

/// The string that begins with `c` and goes on with `rest`.
///
/// Formats both with `format!`: by their `Display`, a `char` is written as
/// that one character and a string as its characters.
#[verifier::external_body]
fn prepend(c: char, rest: &String) -> (s: String)
    ensures
        s@ == seq![c] + rest@,
{
    format!("{}{}", c, rest)
}

/// The string of one link, given the string of the rest of the list.
fn join(layer: CharLinkedList<String>) -> (s: String)
    ensures
        s@ == joined(layer),
{
    match layer {
        CharLinkedList::Cons(c, rest) => prepend(c, &rest),
        CharLinkedList::Nil => String::new(),
    }
}

/// Reads the string back from a store of characters: the characters of the
/// list that begins at the root.
pub fn to_str(r: RecursiveString) -> (s: String)
    ensures
        s@ == spell(r@, 0),
{
    let held = r.layers();
    let ghost elems = held@;
    let s = r.collapse_layers(join);
    proof {
        let vals = choose|vals: Seq<String>| #[trigger]
            folded::<CharLinkedList<ArenaIndex>, CharLinkedList<String>, String, _>(
                elems,
                0,
                join,
                vals,
                0,
            ) && vals[0] == s;
        lemma_fold_spells(join, elems, vals, 0);
    }
    s
}

/// A fold that joins each link to the string of its rest holds at every
/// place the characters of the list that begins there.
proof fn lemma_fold_spells<F: FnMut(CharLinkedList<String>) -> String>(
    f: F,
    elems: Seq<CharLinkedList<ArenaIndex>>,
    vals: Seq<String>,
    i: int,
)
    requires
        well_formed(elems, 0),
        forall|w: CharLinkedList<String>, r: String| #[trigger]
            f.ensures((w,), r) ==> r@ == joined(w),
        folded::<CharLinkedList<ArenaIndex>, CharLinkedList<String>, String, F>(
            elems,
            0,
            f,
            vals,
            0,
        ),
        0 <= i < elems.len(),
    ensures
        vals[i]@ == spell(elems, i),
    decreases elems.len() - i,
{
    assert(reduced::<CharLinkedList<ArenaIndex>, CharLinkedList<String>, String, F>(
        elems,
        0,
        f,
        vals,
        i,
    ));
    let w = choose|w: CharLinkedList<String>|
        handed(elems, 0, vals, i, w) && f.ensures((w,), vals[i]);
    match elems[i] {
        CharLinkedList::Cons(c, next) => {
            assert(is_slot(elems, i, 0));
            assert(child_at(elems, i, 0) == next.0);
            assert(w.children()[0] == vals[next.0 as int]);
            lemma_fold_spells(f, elems, vals, next.0 as int);
        },
        CharLinkedList::Nil => {},
    }
}

/// The list that begins at position `i` of the store of `s` spells what is
/// left of `s` from `i` on.
proof fn lemma_spell_from(elems: Seq<CharLinkedList<ArenaIndex>>, s: Seq<char>, i: int)
    requires
        s.len() < usize::MAX,
        encodes(elems, s),
        0 <= i <= s.len(),
    ensures
        spell(elems, i) == s.subrange(i, s.len() as int),
    decreases s.len() - i,
{
    if i < s.len() {
        lemma_spell_from(elems, s, i + 1);
        assert(s.subrange(i, s.len() as int) =~= seq![s[i]] + s.subrange(i + 1, s.len() as int));
    } else {
        assert(s.subrange(i, s.len() as int) =~= Seq::<char>::empty());
    }
}

/// Putting a string into a store and reading the store back gives the
/// string: the store of the list of `s` spells `s` from its root.
pub proof fn lemma_round_trip(elems: Seq<CharLinkedList<ArenaIndex>>, s: Seq<char>)
    requires
        s.len() < usize::MAX,
        encodes(elems, s),
    ensures
        spell(elems, 0) == s,
{
    lemma_spell_from(elems, s, 0);
    assert(s.subrange(0, s.len() as int) =~= s);
}

} // verus!
