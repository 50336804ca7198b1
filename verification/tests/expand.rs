use recursion::examples::filetree::{FileMeta, FileTree, RecursiveFileTree};
use recursion::recursive_tree::arena_eval::ArenaIndex;
use recursion::recursive_tree::expand::{Expansion, Step};
use std::cell::RefCell;

enum Entry {
    File(u64),
    Dir(Vec<(String, Entry)>),
}

fn file(len: u64) -> Entry {
    Entry::File(len)
}

fn dir(entries: Vec<(&str, Entry)>) -> Entry {
    Entry::Dir(entries.into_iter().map(|(name, entry)| (name.to_string(), entry)).collect())
}

fn layer_of(entry: Entry) -> FileTree<Entry> {
    match entry {
        Entry::File(len) => FileTree::File(FileMeta { len }),
        Entry::Dir(entries) => FileTree::Dir(entries),
    }
}

fn sample() -> Entry {
    dir(vec![
        ("a", dir(vec![("x", file(1)), ("y", file(2))])),
        ("b", file(3)),
        ("c", dir(vec![("z", file(4))])),
    ])
}

fn names_and_indices(layer: &FileTree<ArenaIndex>) -> Vec<(String, usize)> {
    match layer {
        FileTree::File(_) => Vec::new(),
        FileTree::Dir(entries) => entries.iter().map(|(name, idx)| (name.clone(), idx.0)).collect(),
    }
}

fn named(entries: Vec<(&str, usize)>) -> Vec<(String, usize)> {
    entries.into_iter().map(|(name, idx)| (name.to_string(), idx)).collect()
}

#[test]
fn children_are_numbered_breadth_first() {
    let tree = RecursiveFileTree::expand_layers(sample(), layer_of);
    let layers = tree.layers();
    assert_eq!(layers.len(), 7);
    assert_eq!(names_and_indices(&layers[0]), named(vec![("a", 1), ("b", 2), ("c", 3)]));
    assert_eq!(names_and_indices(&layers[1]), named(vec![("x", 4), ("y", 5)]));
    assert!(matches!(layers[2], FileTree::File(FileMeta { len: 3 })));
    assert_eq!(names_and_indices(&layers[3]), named(vec![("z", 6)]));
    assert!(matches!(layers[4], FileTree::File(FileMeta { len: 1 })));
    assert!(matches!(layers[5], FileTree::File(FileMeta { len: 2 })));
    assert!(matches!(layers[6], FileTree::File(FileMeta { len: 4 })));
}

#[test]
fn every_child_index_follows_its_parent() {
    let tree = RecursiveFileTree::expand_layers(sample(), layer_of);
    let layers = tree.layers();
    for (i, layer) in layers.iter().enumerate() {
        for (_, c) in names_and_indices(layer) {
            assert!(c > i);
            assert!(c < layers.len());
            assert_ne!(c, 0);
        }
    }
}

#[test]
fn every_layer_but_the_root_has_one_parent() {
    let tree = RecursiveFileTree::expand_layers(sample(), layer_of);
    let layers = tree.layers();
    let mut parents = vec![0usize; layers.len()];
    for layer in layers.iter() {
        for (_, c) in names_and_indices(layer) {
            parents[c] += 1;
        }
    }
    assert_eq!(parents, vec![0, 1, 1, 1, 1, 1, 1]);
}

#[test]
fn a_seed_without_children_gives_a_store_of_one_layer() {
    let tree = RecursiveFileTree::expand_layers(file(9), layer_of);
    assert_eq!(tree.layers().len(), 1);
    assert!(matches!(tree.layers()[0], FileTree::File(FileMeta { len: 9 })));
}

#[test]
fn an_empty_directory_gives_a_store_of_one_layer() {
    let tree = RecursiveFileTree::expand_layers(dir(Vec::new()), layer_of);
    assert_eq!(tree.layers().len(), 1);
    assert!(names_and_indices(&tree.layers()[0]).is_empty());
    assert!(matches!(tree.layers()[0], FileTree::Dir(_)));
}

#[test]
fn equal_seeds_give_equal_stores() {
    let first = RecursiveFileTree::expand_layers(sample(), layer_of);
    let second = RecursiveFileTree::expand_layers(sample(), layer_of);
    assert_eq!(first.layers().len(), second.layers().len());
    for (a, b) in first.layers().iter().zip(second.layers().iter()) {
        match (a, b) {
            (FileTree::File(m), FileTree::File(n)) => assert_eq!(m.len, n.len),
            (FileTree::Dir(_), FileTree::Dir(_)) => {
                assert_eq!(names_and_indices(a), names_and_indices(b))
            }
            _ => panic!("the stores differ in shape"),
        }
    }
}

#[test]
fn seeds_are_generated_in_breadth_first_order() {
    let visited = RefCell::new(Vec::new());
    let tree = RecursiveFileTree::expand_layers(sample(), |entry: Entry| {
        visited.borrow_mut().push(match &entry {
            Entry::File(len) => format!("file {}", len),
            Entry::Dir(entries) => format!("dir of {}", entries.len()),
        });
        layer_of(entry)
    });
    assert_eq!(tree.layers().len(), 7);
    assert_eq!(
        visited.into_inner(),
        vec!["dir of 3", "dir of 2", "file 3", "dir of 1", "file 1", "file 2", "file 4"]
    );
}

#[test]
fn a_build_in_steps_gives_the_store_of_expand_layers() {
    let (state, seed) = Expansion::<Entry, FileTree<ArenaIndex>>::start(sample());
    assert_eq!(state.assigned(), 1);
    let mut state = state;
    let mut seed = seed;
    let mut assigned = Vec::new();
    let tree = loop {
        match state.absorb(layer_of(seed)) {
            Step::Finished(tree) => break tree,
            Step::Generate(next, wanted) => {
                assigned.push(next.assigned());
                state = next;
                seed = wanted;
            }
        }
    };
    assert_eq!(assigned, vec![4, 6, 6, 7, 7, 7]);
    let whole = RecursiveFileTree::expand_layers(sample(), layer_of);
    assert_eq!(tree.layers().len(), whole.layers().len());
    for (a, b) in tree.layers().iter().zip(whole.layers().iter()) {
        assert_eq!(names_and_indices(a), names_and_indices(b));
    }
}

#[test]
fn advance_hands_a_failure_back() {
    let (state, _seed) = Expansion::<Entry, FileTree<ArenaIndex>>::start(sample());
    let event: Result<FileTree<Entry>, String> = Err("unreadable".to_string());
    match state.advance(event) {
        Err(e) => assert_eq!(e, "unreadable"),
        Ok(_) => panic!("a failure ends the build"),
    }
}

#[test]
fn advance_stores_a_layer() {
    let (state, seed) = Expansion::<Entry, FileTree<ArenaIndex>>::start(sample());
    let event: Result<FileTree<Entry>, String> = Ok(layer_of(seed));
    match state.advance(event) {
        Ok(Step::Generate(next, wanted)) => {
            assert_eq!(next.assigned(), 4);
            assert!(matches!(wanted, Entry::Dir(ref entries) if entries.len() == 2));
        }
        Ok(Step::Finished(_)) => panic!("three seeds wait for their layers"),
        Err(_) => panic!("nothing failed"),
    }
}

#[test]
fn advance_finishes_when_no_seed_is_left() {
    let (state, seed) = Expansion::<Entry, FileTree<ArenaIndex>>::start(file(5));
    let event: Result<FileTree<Entry>, String> = Ok(layer_of(seed));
    match state.advance(event) {
        Ok(Step::Finished(tree)) => {
            assert_eq!(tree.layers().len(), 1);
            assert!(matches!(tree.layers()[0], FileTree::File(FileMeta { len: 5 })));
        }
        _ => panic!("a single file completes the store"),
    }
}

#[test]
fn generation_stops_at_the_first_failure() {
    for k in 0..7usize {
        let calls = RefCell::new(Vec::new());
        let built = RecursiveFileTree::try_expand_layers(sample(), |entry: Entry| {
            let step = calls.borrow().len();
            calls.borrow_mut().push(step);
            if step >= k {
                Err(format!("step {} failed", step))
            } else {
                Ok(layer_of(entry))
            }
        });
        match built {
            Err(e) => assert_eq!(e, format!("step {} failed", k)),
            Ok(_) => panic!("the build must fail"),
        }
        assert_eq!(calls.into_inner().len(), k + 1);
    }
}

#[test]
fn a_build_without_failure_gives_the_store_of_expand_layers() {
    let built: Result<RecursiveFileTree, String> =
        RecursiveFileTree::try_expand_layers(sample(), |entry: Entry| Ok(layer_of(entry)));
    let tree = match built {
        Ok(tree) => tree,
        Err(_) => panic!("nothing failed"),
    };
    let whole = RecursiveFileTree::expand_layers(sample(), layer_of);
    assert_eq!(tree.layers().len(), 7);
    for (a, b) in tree.layers().iter().zip(whole.layers().iter()) {
        assert_eq!(names_and_indices(a), names_and_indices(b));
    }
}
