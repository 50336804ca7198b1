use recursion::examples::filetree::{FileMeta, FileTree, FileTreeRef, RecursiveFileTree};
use recursion::examples::linked_list::{from_str, CharLinkedList};
use recursion::recursive_tree::arena_eval::{
    ArenaIndex, Head, RecursiveTreeRefWithOffset, RecursiveTreeRefWithOffsetAndContext,
};

enum Entry {
    File(u64),
    Dir(Vec<(String, Entry)>),
}

fn file(len: u64) -> Entry {
    Entry::File(len)
}

fn dir(entries: Vec<(&str, Entry)>) -> Entry {
    Entry::Dir(entries.into_iter().map(|(name, entry)| (name.to_string(), entry)).collect())
}

fn layer_of(entry: Entry) -> FileTree<Entry> {
    match entry {
        Entry::File(len) => FileTree::File(FileMeta { len }),
        Entry::Dir(entries) => FileTree::Dir(entries),
    }
}

fn sample() -> RecursiveFileTree {
    RecursiveFileTree::expand_layers(
        dir(vec![
            ("a", dir(vec![("x", file(1)), ("y", file(2))])),
            ("b", file(3)),
            ("c", dir(vec![("z", file(4))])),
        ]),
        layer_of,
    )
}

fn total_size(layer: FileTreeRef<u64>) -> u64 {
    match layer {
        FileTreeRef::File(meta) => meta.len,
        FileTreeRef::Dir(entries) => entries.into_iter().map(|(_, size)| size).sum(),
    }
}

#[test]
fn owning_collapse_adds_up_the_sizes() {
    let total = sample().collapse_layers(|layer: FileTree<u64>| match layer {
        FileTree::File(meta) => meta.len,
        FileTree::Dir(entries) => entries.into_iter().map(|(_, size)| size).sum(),
    });
    assert_eq!(total, 10);
}

#[test]
fn owning_collapse_goes_from_the_last_layer_to_the_first() {
    let mut order = Vec::new();
    let paths = sample().collapse_layers(|layer: FileTree<Vec<String>>| match layer {
        FileTree::File(meta) => {
            order.push(format!("file {}", meta.len));
            vec![String::new()]
        }
        FileTree::Dir(entries) => {
            order.push(format!("dir of {}", entries.len()));
            let mut paths = Vec::new();
            for (name, below) in entries {
                for path in below {
                    paths.push(format!("/{}{}", name, path));
                }
            }
            paths
        }
    });
    assert_eq!(
        order,
        vec!["file 4", "file 2", "file 1", "dir of 1", "file 3", "dir of 2", "dir of 3"]
    );
    assert_eq!(paths, vec!["/a/x", "/a/y", "/b", "/c/z"]);
}

#[test]
fn owning_collapse_of_a_single_layer() {
    let tree = RecursiveFileTree::expand_layers(file(7), layer_of);
    let mut calls = 0;
    let size = tree.collapse_layers(|layer: FileTree<u64>| {
        calls += 1;
        match layer {
            FileTree::File(meta) => meta.len,
            FileTree::Dir(_) => 0,
        }
    });
    assert_eq!(size, 7);
    assert_eq!(calls, 1);
}

#[test]
fn borrowing_collapse_leaves_the_tree_in_place() {
    let tree = sample();
    assert_eq!(tree.as_ref().collapse_layers(total_size), 10);
    assert_eq!(tree.as_ref().collapse_layers(total_size), 10);
    let files = tree.as_ref().collapse_layers(|layer: FileTreeRef<usize>| match layer {
        FileTreeRef::File(_) => 1,
        FileTreeRef::Dir(entries) => entries.into_iter().map(|(_, n)| n).sum(),
    });
    assert_eq!(files, 4);
    assert_eq!(tree.layers().len(), 7);
}

#[test]
fn borrowing_collapse_reads_a_string_back() {
    let list = from_str("abc");
    let text = list.as_ref().collapse_layers(|layer: CharLinkedList<String>| match layer {
        CharLinkedList::Cons(c, rest) => format!("{}{}", c, rest),
        CharLinkedList::Nil => String::new(),
    });
    assert_eq!(text, "abc");
    let length = list.as_ref().collapse_layers(|layer: CharLinkedList<usize>| match layer {
        CharLinkedList::Cons(_, rest) => rest + 1,
        CharLinkedList::Nil => 0,
    });
    assert_eq!(length, 3);
}

#[test]
fn head_shows_the_root_with_windows_for_children() {
    let tree = sample();
    let head: FileTreeRef<RecursiveTreeRefWithOffset<FileTree<ArenaIndex>>> = tree.head();
    match head {
        FileTreeRef::Dir(entries) => {
            assert_eq!(entries.len(), 3);
            let names: Vec<&str> = entries.iter().map(|(name, _)| name.as_str()).collect();
            assert_eq!(names, vec!["a", "b", "c"]);
            let offsets: Vec<usize> = entries.iter().map(|(_, w)| w.offset()).collect();
            assert_eq!(offsets, vec![1, 2, 3]);
            let lengths: Vec<usize> = entries.iter().map(|(_, w)| w.layers().len()).collect();
            assert_eq!(lengths, vec![6, 5, 4]);
            let sizes: Vec<u64> =
                entries.into_iter().map(|(_, w)| w.collapse_layers(total_size)).collect();
            assert_eq!(sizes, vec![3, 3, 4]);
        }
        FileTreeRef::File(_) => panic!("the root is a directory"),
    }
}

#[test]
fn head_of_a_list_is_its_first_link() {
    let list = from_str("abc");
    let head: CharLinkedList<RecursiveTreeRefWithOffset<CharLinkedList<ArenaIndex>>> = list.head();
    match head {
        CharLinkedList::Cons(c, rest) => {
            assert_eq!(c, 'a');
            assert_eq!(rest.offset(), 1);
            assert_eq!(rest.layers().len(), 3);
            let text = rest.collapse_layers(|layer: CharLinkedList<String>| match layer {
                CharLinkedList::Cons(c, rest) => format!("{}{}", c, rest),
                CharLinkedList::Nil => String::new(),
            });
            assert_eq!(text, "bc");
        }
        CharLinkedList::Nil => panic!("the list is not empty"),
    }
}

#[test]
fn head_of_a_leaf_has_no_windows() {
    let list = from_str("");
    let head: CharLinkedList<RecursiveTreeRefWithOffset<CharLinkedList<ArenaIndex>>> = list.head();
    assert!(matches!(head, CharLinkedList::Nil));
}

type Substructure<'x> = RecursiveTreeRefWithOffsetAndContext<'x, CharLinkedList<ArenaIndex>, String>;

fn with_offsets<'x>(layer: CharLinkedList<(&'x String, Substructure<'x>)>) -> String {
    match layer {
        CharLinkedList::Cons(c, (rest, window)) => {
            format!("{}{}/{}{}", c, window.offset(), window.layers().len(), rest)
        }
        CharLinkedList::Nil => String::new(),
    }
}

#[test]
fn collapse_with_substructure_hands_out_value_and_window() {
    let list = from_str("abc");
    let text = list.as_ref().collapse_layers_2(with_offsets);
    assert_eq!(text, "a1/3b2/2c3/1");
    assert_eq!(list.layers().len(), 4);
}

fn with_context<'x>(layer: CharLinkedList<(&'x String, Substructure<'x>)>) -> String {
    match layer {
        CharLinkedList::Cons(c, (rest, window)) => {
            let cached: Vec<String> = window
                .context()
                .iter()
                .map(|value| match value {
                    Some(text) => text.clone(),
                    None => "?".to_string(),
                })
                .collect();
            assert_eq!(cached.len(), window.layers().len());
            assert_eq!(&cached[0], rest);
            format!("{}{}", c, rest)
        }
        CharLinkedList::Nil => String::new(),
    }
}

#[test]
fn the_window_of_a_child_carries_the_values_made_so_far() {
    let list = from_str("abc");
    assert_eq!(list.as_ref().collapse_layers_2(with_context), "abc");
}

fn longest_cached<'x>(layer: CharLinkedList<(&'x String, Substructure<'x>)>) -> String {
    match layer {
        CharLinkedList::Cons(c, (rest, window)) => {
            let nothing: &'static String = Box::leak(Box::new(String::new()));
            let mut seen = Vec::new();
            let below: &String =
                window.collapse_layers_3(|inner: CharLinkedList<(&String, &String)>| match inner {
                    CharLinkedList::Cons(d, (cached, made)) => {
                        seen.push(format!("{}:{}:{}", d, cached, made));
                        cached
                    }
                    CharLinkedList::Nil => nothing,
                });
            format!("{}{}[{}|{}]", c, rest, below, seen.join(","))
        }
        CharLinkedList::Nil => String::new(),
    }
}

#[test]
fn collapse_with_context_pairs_cached_and_made_values() {
    let list = from_str("ab");
    let text = list.as_ref().collapse_layers_2(longest_cached);
    // The link of `b` sees the window at 2, which holds the end of the list
    // only. The link of `a` sees the window at 1, where the link of `b` is
    // handed the value cached for the end of the list and the value made of
    // it.
    assert_eq!(text, "ab[|][|b::]");
}

#[test]
fn collapse_with_context_reads_indices_relative_to_the_offset() {
    let list = from_str("abc");
    let text = list.as_ref().collapse_layers_2(longest_cached);
    assert_eq!(text, "abc[|][|c::][c[|]|c::,b:c[|]:]");
}
