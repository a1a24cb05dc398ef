// The compressed prefix tree and the branch-split walk.

use wordseg::errors::SegmentError;
use wordseg::trie::{branch_split_walk, CompressedTrie};

fn chars(s: &str) -> Vec<char> {
    s.chars().collect()
}

#[test]
fn test_split() {
    let mut tree = CompressedTrie::new();

    tree.insert(&chars("foobar"), true);
    tree.insert(&chars("foobaz"), true);
    tree.insert(&chars("foo"), true);

    let r = branch_split_walk(&tree, &chars("foobar"));

    println!("{:?}", r);
}

#[test]
fn test_walk_cuts_at_branch_points() {
    let mut tree = CompressedTrie::new();
    tree.insert(&chars("foobar"), true);
    tree.insert(&chars("foobaz"), true);
    tree.insert(&chars("foo"), true);

    // "foo" is terminal with a continuation, so it is a branch point; so is
    // "fooba", where "foobar" and "foobaz" diverge.
    let r = branch_split_walk(&tree, &chars("foobar")).unwrap();
    assert_eq!(r, vec![(0, 3), (3, 5), (5, 6)]);
}

#[test]
fn test_walk_single_path_is_whole() {
    let mut tree = CompressedTrie::new();
    tree.insert(&chars("word"), true);

    let r = branch_split_walk(&tree, &chars("word")).unwrap();
    assert_eq!(r, vec![(0, 4)]);
}

#[test]
fn test_walk_trailing_branch_gives_empty_final_span() {
    let mut tree = CompressedTrie::new();
    tree.insert(&chars("foo"), true);
    tree.insert(&chars("foobar"), true);

    // The query ends exactly at a branch point: the cut there is followed by
    // the empty trailing boundary.
    let r = branch_split_walk(&tree, &chars("foo")).unwrap();
    assert_eq!(r, vec![(0, 3), (3, 3)]);
}

#[test]
fn test_walk_unknown_query_is_no_path() {
    let mut tree = CompressedTrie::new();
    tree.insert(&chars("foo"), true);

    assert_eq!(
        branch_split_walk(&tree, &chars("bar")),
        Err(SegmentError::NoPathFound)
    );
    // A proper prefix of an entry ends inside a path fragment, so it is not
    // a path of the tree either.
    assert_eq!(
        branch_split_walk(&tree, &chars("fo")),
        Err(SegmentError::NoPathFound)
    );
}

#[test]
fn test_walk_empty_query() {
    let tree = CompressedTrie::new();
    let r = branch_split_walk(&tree, &Vec::new()).unwrap();
    assert_eq!(r, vec![(0, 0)]);
}

#[test]
fn test_insert_overwrites_marker() {
    let mut tree = CompressedTrie::new();
    tree.insert(&chars("stem"), true);
    tree.insert(&chars("stems"), true);
    // Un-marking an entry keeps it as a path but not as an entry; the node
    // at "stem" is then no longer a branch point for "stems".
    tree.insert(&chars("stem"), false);

    let r = branch_split_walk(&tree, &chars("stems")).unwrap();
    assert_eq!(r, vec![(0, 5)]);
}
