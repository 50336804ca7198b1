use recursion::examples::linked_list::{from_str, to_str, CharLinkedList};
use recursion::recursive_tree::arena_eval::ArenaIndex;

#[test]
fn abc_is_stored_as_four_links() {
    let list = from_str("abc");
    let layers = list.layers();
    assert_eq!(layers.len(), 4);
    assert!(matches!(layers[0], CharLinkedList::Cons('a', ArenaIndex(1))));
    assert!(matches!(layers[1], CharLinkedList::Cons('b', ArenaIndex(2))));
    assert!(matches!(layers[2], CharLinkedList::Cons('c', ArenaIndex(3))));
    assert!(matches!(layers[3], CharLinkedList::Nil));
}

#[test]
fn abc_folds_back_to_abc() {
    assert_eq!(to_str(from_str("abc")), "abc");
}

#[test]
fn empty_string_round_trips() {
    let list = from_str("");
    assert_eq!(list.layers().len(), 1);
    assert!(matches!(list.layers()[0], CharLinkedList::Nil));
    assert_eq!(to_str(list), "");
}

#[test]
fn one_character_round_trips() {
    let list = from_str("x");
    assert_eq!(list.layers().len(), 2);
    assert!(matches!(list.layers()[0], CharLinkedList::Cons('x', ArenaIndex(1))));
    assert_eq!(to_str(list), "x");
}

#[test]
fn characters_outside_ascii_round_trip() {
    let text = "héllo wörld ✓";
    let list = from_str(text);
    assert_eq!(list.layers().len(), text.chars().count() + 1);
    assert_eq!(to_str(list), text);
}

#[test]
fn long_string_round_trips() {
    let mut long_string = String::new();
    for _ in 0..1000 {
        long_string.push_str("abc");
    }
    let list = from_str(&long_string);
    assert_eq!(list.layers().len(), 3001);
    assert_eq!(to_str(list), long_string);
}

#[test]
fn the_root_is_the_first_link() {
    let list = from_str("abc");
    assert_eq!(ArenaIndex::head().0, 0);
    assert!(matches!(list.layers()[ArenaIndex::head().0], CharLinkedList::Cons('a', _)));
}

#[test]
fn every_link_points_to_the_next_position() {
    let list = from_str("recursion");
    let layers = list.layers();
    for (i, layer) in layers.iter().enumerate() {
        match layer {
            CharLinkedList::Cons(_, ArenaIndex(next)) => assert_eq!(*next, i + 1),
            CharLinkedList::Nil => assert_eq!(i, layers.len() - 1),
        }
    }
}
