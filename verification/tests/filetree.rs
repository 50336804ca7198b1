use recursion::examples::filetree::{depth, FileMeta, FileTree, RecursiveFileTree};

enum Entry {
    File(u64),
    Dir(Vec<(String, Entry)>),
}

fn file(len: u64) -> Entry {
    Entry::File(len)
}

fn dir(entries: Vec<(&str, Entry)>) -> Entry {
    Entry::Dir(entries.into_iter().map(|(name, entry)| (name.to_string(), entry)).collect())
}

fn layer_of(entry: Entry) -> FileTree<Entry> {
    match entry {
        Entry::File(len) => FileTree::File(FileMeta { len }),
        Entry::Dir(entries) => FileTree::Dir(entries),
    }
}

fn store(entry: Entry) -> RecursiveFileTree {
    RecursiveFileTree::expand_layers(entry, layer_of)
}

fn longest_way_down(entry: &Entry) -> usize {
    match entry {
        Entry::File(_) => 1,
        Entry::Dir(entries) => {
            1 + entries.iter().map(|(_, below)| longest_way_down(below)).max().unwrap_or(0)
        }
    }
}

#[test]
fn a_single_file_has_depth_one() {
    assert_eq!(depth(&store(file(1))), 1);
}

#[test]
fn an_empty_directory_has_depth_one() {
    assert_eq!(depth(&store(dir(Vec::new()))), 1);
}

#[test]
fn a_tree_of_two_levels_has_depth_two() {
    let tree = store(dir(vec![("notes.txt", file(12)), ("sub", dir(Vec::new()))]));
    assert_eq!(tree.layers().len(), 3);
    assert_eq!(depth(&tree), 2);
}

#[test]
fn a_file_in_a_subdirectory_is_on_the_third_level() {
    let tree = store(dir(vec![
        ("notes.txt", file(12)),
        ("sub", dir(vec![("inner.txt", file(3))])),
    ]));
    assert_eq!(tree.layers().len(), 4);
    assert_eq!(depth(&tree), 3);
}

#[test]
fn depth_is_the_longest_way_from_the_root_to_a_leaf() {
    let shapes = vec![
        file(0),
        dir(vec![("a", file(1)), ("b", file(2)), ("c", file(3))]),
        dir(vec![
            ("a", dir(vec![("x", file(1)), ("y", file(2))])),
            ("b", file(3)),
            ("c", dir(vec![("z", dir(vec![("deep", dir(vec![("leaf", file(4))]))]))])),
        ]),
        dir(vec![
            ("first", dir(vec![("a", dir(vec![("b", dir(vec![("c", file(1))]))]))])),
            ("second", dir(Vec::new())),
        ]),
    ];
    let expected = vec![1usize, 2, 5, 5];
    for (shape, levels) in shapes.into_iter().zip(expected) {
        assert_eq!(longest_way_down(&shape), levels);
        assert_eq!(depth(&store(shape)), levels);
    }
}

#[test]
fn depth_of_a_long_chain_needs_no_deep_call_stack() {
    let mut chain = file(1);
    for _ in 0..20_000 {
        chain = dir(vec![("next", chain)]);
    }
    let tree = store(chain);
    assert_eq!(tree.layers().len(), 20_001);
    assert_eq!(depth(&tree), 20_001);
}

#[test]
fn depth_leaves_the_tree_in_place() {
    let tree = store(dir(vec![("a", file(1))]));
    assert_eq!(depth(&tree), 2);
    assert_eq!(depth(&tree), 2);
    assert_eq!(tree.layers().len(), 2);
}
