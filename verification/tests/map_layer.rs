use recursion::examples::filetree::{FileMeta, FileRest, FileTree, FileTreeRef};
use recursion::examples::linked_list::CharLinkedList;
use recursion::map_layer::{map_layer, Layer, MapLayer, MapLayerRef};

#[test]
fn map_layer_replaces_the_child_of_a_link() {
    let mapped = map_layer(CharLinkedList::Cons('a', 20u32), |x: u32| x + 1);
    assert!(matches!(mapped, CharLinkedList::Cons('a', 21u32)));
}

#[test]
fn map_layer_leaves_the_end_of_a_list_alone() {
    let mut calls = 0;
    let mapped = map_layer(CharLinkedList::<u32>::Nil, |x: u32| {
        calls += 1;
        x.to_string()
    });
    assert!(matches!(mapped, CharLinkedList::Nil));
    assert_eq!(calls, 0);
}

#[test]
fn map_layer_visits_the_entries_of_a_directory_in_order() {
    let dir = FileTree::Dir(vec![
        ("one".to_string(), 1u32),
        ("two".to_string(), 2u32),
        ("three".to_string(), 3u32),
    ]);
    let mut seen = Vec::new();
    let mapped = map_layer(dir, |x: u32| {
        seen.push(x);
        format!("<{}>", x)
    });
    assert_eq!(seen, vec![1, 2, 3]);
    match mapped {
        FileTree::Dir(entries) => {
            assert_eq!(entries.len(), 3);
            assert_eq!(entries[0], ("one".to_string(), "<1>".to_string()));
            assert_eq!(entries[1], ("two".to_string(), "<2>".to_string()));
            assert_eq!(entries[2], ("three".to_string(), "<3>".to_string()));
        }
        FileTree::File(_) => panic!("a directory stays a directory"),
    }
}

#[test]
fn map_layer_keeps_what_is_known_of_a_file() {
    let file: FileTree<u32> = FileTree::File(FileMeta { len: 42 });
    let mapped = map_layer(file, |x: u32| x as u64);
    assert!(matches!(mapped, FileTree::File(FileMeta { len: 42 })));
}

#[test]
fn split_parts_a_directory_into_names_and_children() {
    let dir = FileTree::Dir(vec![("a".to_string(), 'x'), ("b".to_string(), 'y')]);
    let (rest, children) = <FileTree<char> as MapLayer<u8>>::split(dir);
    assert_eq!(children, vec!['x', 'y']);
    match &rest {
        FileRest::Dir(names) => assert_eq!(names, &vec!["a".to_string(), "b".to_string()]),
        FileRest::File(_) => panic!("the rest of a directory holds its names"),
    }
    let joined = <FileTree<char> as MapLayer<u8>>::build(rest, vec![7u8, 9u8]);
    match joined {
        FileTree::Dir(entries) => {
            assert_eq!(entries, vec![("a".to_string(), 7u8), ("b".to_string(), 9u8)]);
        }
        FileTree::File(_) => panic!("a directory stays a directory"),
    }
}

#[test]
fn split_and_build_of_a_link() {
    let (rest, children) = <CharLinkedList<u8> as MapLayer<bool>>::split(CharLinkedList::Cons('q', 5u8));
    assert_eq!(rest, Some('q'));
    assert_eq!(children, vec![5u8]);
    let joined = <CharLinkedList<u8> as MapLayer<bool>>::build(rest, vec![true]);
    assert!(matches!(joined, CharLinkedList::Cons('q', true)));
    let (rest, children) = <CharLinkedList<u8> as MapLayer<bool>>::split(CharLinkedList::Nil);
    assert_eq!(rest, None);
    assert!(children.is_empty());
    let joined = <CharLinkedList<u8> as MapLayer<bool>>::build(rest, Vec::new());
    assert!(matches!(joined, CharLinkedList::Nil));
}

#[test]
fn build_ref_borrows_names_and_file_data() {
    let dir = FileTree::Dir(vec![("a".to_string(), 1u8), ("b".to_string(), 2u8)]);
    let borrowed = <FileTree<u8> as MapLayerRef<&str>>::build_ref(&dir, vec!["first", "second"]);
    match borrowed {
        FileTreeRef::Dir(entries) => {
            assert_eq!(entries.len(), 2);
            assert_eq!(entries[0].0, "a");
            assert_eq!(entries[0].1, "first");
            assert_eq!(entries[1].0, "b");
            assert_eq!(entries[1].1, "second");
        }
        FileTreeRef::File(_) => panic!("a directory stays a directory"),
    }
    let file: FileTree<u8> = FileTree::File(FileMeta { len: 9 });
    let borrowed = <FileTree<u8> as MapLayerRef<&str>>::build_ref(&file, Vec::new());
    assert!(matches!(borrowed, FileTreeRef::File(FileMeta { len: 9 })));
}

#[test]
fn child_count_and_child_list_agree() {
    let dir = FileTree::Dir(vec![("a".to_string(), 10u8), ("b".to_string(), 20u8)]);
    assert_eq!(dir.child_count(), 2);
    assert_eq!(dir.child_list(), vec![10u8, 20u8]);
    let file: FileTree<u8> = FileTree::File(FileMeta { len: 0 });
    assert_eq!(file.child_count(), 0);
    assert!(file.child_list().is_empty());
    let link = CharLinkedList::Cons('c', 3u8);
    assert_eq!(link.child_count(), 1);
    assert_eq!(link.child_list(), vec![3u8]);
    assert_eq!(CharLinkedList::<u8>::Nil.child_count(), 0);
}

#[test]
fn names_that_occur_twice_are_found() {
    let fine = FileTree::Dir(vec![("a".to_string(), 1u8), ("b".to_string(), 2u8)]);
    assert!(fine.has_distinct_names());
    let twice = FileTree::Dir(vec![
        ("a".to_string(), 1u8),
        ("b".to_string(), 2u8),
        ("a".to_string(), 3u8),
    ]);
    assert!(!twice.has_distinct_names());
    let empty: FileTree<u8> = FileTree::Dir(Vec::new());
    assert!(empty.has_distinct_names());
    let file: FileTree<u8> = FileTree::File(FileMeta { len: 1 });
    assert!(file.has_distinct_names());
}
