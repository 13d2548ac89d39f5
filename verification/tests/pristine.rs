use pijul_core::changes::ChangeId;
use pijul_core::pristine::{ChangeIds, Inode, Tree, TreeError};

fn h(n: u128) -> pijul_core::changes::Hash {
    pijul_core::changes::Hash(n, !n)
}

#[test]
fn changes_get_their_numbers_once() {
    let ids = ChangeIds::new();
    assert_eq!(ids.len(), 0);
    assert_eq!(ids.get_internal(h(1)), None);
    assert_eq!(ids.get_external(ChangeId(0)), None);
    let (ids, a) = ids.register(h(10));
    let (ids, b) = ids.register(h(20));
    let (ids, again) = ids.register(h(10));
    assert_eq!(a, ChangeId(0));
    assert_eq!(b, ChangeId(1));
    assert_eq!(again, a);
    assert_eq!(ids.len(), 2);
    assert_eq!(ids.get_internal(h(20)), Some(b));
    assert_eq!(ids.get_external(b), Some(h(20)));
    assert_eq!(ids.get_external(a), Some(h(10)));
    assert_eq!(ids.get_internal(h(30)), None);
    assert_eq!(ids.get_external(ChangeId(2)), None);
}

const ROOT: Inode = Inode(0);

#[test]
fn the_tree_is_read_in_both_directions() {
    let tree = Tree::new();
    let (tree, r) = tree.add(ROOT, "src", Inode(1));
    assert_eq!(r, Ok(()));
    let (tree, r) = tree.add(Inode(1), "lib.rs", Inode(2));
    assert_eq!(r, Ok(()));
    let (tree, r) = tree.add(ROOT, "a.txt", Inode(3));
    assert_eq!(r, Ok(()));
    assert_eq!(tree.get(ROOT, "src"), Some(Inode(1)));
    assert_eq!(tree.get(Inode(1), "lib.rs"), Some(Inode(2)));
    assert_eq!(tree.get(ROOT, "lib.rs"), None);
    assert_eq!(tree.get_rev(Inode(2)), Some((Inode(1), "lib.rs")));
    assert_eq!(tree.get_rev(Inode(3)), Some((ROOT, "a.txt")));
    assert_eq!(tree.get_rev(Inode(9)), None);
    for inode in [Inode(1), Inode(2), Inode(3)] {
        let (parent, name) = tree.get_rev(inode).unwrap();
        assert_eq!(tree.get(parent, name), Some(inode));
    }
}

#[test]
fn a_place_holds_one_file_and_a_file_one_place() {
    let (tree, _) = Tree::new().add(ROOT, "a.txt", Inode(1));
    let (tree, r) = tree.add(ROOT, "b.txt", Inode(1));
    assert_eq!(r, Err(TreeError::AlreadyTracked));
    let (tree, r) = tree.add(ROOT, "a.txt", Inode(2));
    assert_eq!(r, Err(TreeError::NameTaken(Inode(1))));
    assert_eq!(tree.get(ROOT, "b.txt"), None);
    assert_eq!(tree.get_rev(Inode(2)), None);
    assert_eq!(tree.get(ROOT, "a.txt"), Some(Inode(1)));
}

#[test]
fn a_file_that_is_added_and_deleted_is_absent() {
    let (tree, _) = Tree::new().add(ROOT, "keep", Inode(1));
    let (tree, r) = tree.add(ROOT, "empty", Inode(2));
    assert_eq!(r, Ok(()));
    let (tree, was_there) = tree.remove(Inode(2));
    assert!(was_there);
    assert_eq!(tree.get(ROOT, "empty"), None);
    assert_eq!(tree.get_rev(Inode(2)), None);
    assert_eq!(tree.get(ROOT, "keep"), Some(Inode(1)));
    let (tree, was_there) = tree.remove(Inode(2));
    assert!(!was_there);
    assert_eq!(tree.get(ROOT, "keep"), Some(Inode(1)));
}

#[test]
fn a_file_that_is_renamed_and_renamed_back_stands_where_it_stood() {
    let (tree, _) = Tree::new().add(ROOT, "A", Inode(1));
    let (tree, _) = tree.add(ROOT, "other", Inode(2));
    let (tree, r) = tree.rename(Inode(1), ROOT, "B");
    assert_eq!(r, Ok(()));
    assert_eq!(tree.get(ROOT, "A"), None);
    assert_eq!(tree.get(ROOT, "B"), Some(Inode(1)));
    let (tree, r) = tree.rename(Inode(1), ROOT, "A");
    assert_eq!(r, Ok(()));
    assert_eq!(tree.get(ROOT, "A"), Some(Inode(1)));
    assert_eq!(tree.get(ROOT, "B"), None);
    assert_eq!(tree.get_rev(Inode(1)), Some((ROOT, "A")));
    assert_eq!(tree.get(ROOT, "other"), Some(Inode(2)));
}

#[test]
fn a_file_is_not_renamed_onto_another() {
    let (tree, _) = Tree::new().add(ROOT, "A", Inode(1));
    let (tree, _) = tree.add(ROOT, "B", Inode(2));
    let (tree, r) = tree.rename(Inode(1), ROOT, "B");
    assert_eq!(r, Err(TreeError::NameTaken(Inode(2))));
    let (tree, r) = tree.rename(Inode(7), ROOT, "C");
    assert_eq!(r, Err(TreeError::NotTracked));
    // to its own place
    let (tree, r) = tree.rename(Inode(1), ROOT, "A");
    assert_eq!(r, Ok(()));
    // into another directory
    let (tree, r) = tree.rename(Inode(1), Inode(2), "B");
    assert_eq!(r, Ok(()));
    assert_eq!(tree.get(Inode(2), "B"), Some(Inode(1)));
    assert_eq!(tree.get(ROOT, "B"), Some(Inode(2)));
    assert_eq!(tree.get(ROOT, "A"), None);
}
