use pijul_core::changes::ChangeId;
use pijul_core::output::{blob_path, conflict_block, conflict_of_two, missing_changes, BlobKind, Side};

fn side(change: u64, bytes: &[u8]) -> Side {
    Side { change: ChangeId(change), bytes: bytes.to_vec() }
}

fn h(n: u128) -> pijul_core::changes::Hash {
    pijul_core::changes::Hash(n, n)
}

#[test]
fn a_conflict_of_two_sides_is_shown_between_markers() {
    let block = conflict_block(&[side(1, b"FOO\n"), side(2, b"BAR\n")]);
    assert_eq!(block, b">>>>>>> 1\nFOO\n=======\nBAR\n<<<<<<<\n".to_vec());
}

#[test]
fn the_sides_of_a_conflict_stand_in_the_order_of_their_changes() {
    let expected = b">>>>>>> 1\nFOO\n=======\nBAR\n<<<<<<<\n".to_vec();
    assert_eq!(conflict_of_two(side(3, b"FOO\n"), side(7, b"BAR\n")), expected);
    assert_eq!(conflict_of_two(side(7, b"BAR\n"), side(3, b"FOO\n")), expected);
    // sides of one change stay as they are given
    assert_eq!(
        conflict_of_two(side(3, b"a\n"), side(3, b"b\n")),
        b">>>>>>> 1\na\n=======\nb\n<<<<<<<\n".to_vec()
    );
}

#[test]
fn conflicts_of_one_side_and_of_many() {
    assert_eq!(conflict_block(&[side(1, b"zombie\n")]), b">>>>>>> 1\nzombie\n<<<<<<<\n".to_vec());
    assert_eq!(conflict_block(&[]), b">>>>>>> 1\n<<<<<<<\n".to_vec());
    assert_eq!(
        conflict_block(&[side(1, b"a\n"), side(2, b""), side(3, b"c\n")]),
        b">>>>>>> 1\na\n=======\n=======\nc\n<<<<<<<\n".to_vec()
    );
}

#[test]
fn changes_and_tags_are_kept_under_the_beginning_of_their_hash() {
    assert_eq!(
        blob_path("ABCDEFGH", BlobKind::Change),
        Some(("AB".to_string(), "CDEFGH.change".to_string()))
    );
    assert_eq!(
        blob_path("ABCDEFGH", BlobKind::Tag),
        Some(("AB".to_string(), "CDEFGH.tag".to_string()))
    );
    assert_eq!(blob_path("AB", BlobKind::Change), Some(("AB".to_string(), ".change".to_string())));
    assert_eq!(blob_path("A", BlobKind::Change), None);
    assert_eq!(blob_path("", BlobKind::Tag), None);
}

#[test]
fn what_this_side_lacks_is_transferred() {
    assert_eq!(missing_changes(&[h(1), h(2), h(3), h(4)], &[h(3), h(1)]), vec![h(2), h(4)]);
    assert_eq!(missing_changes(&[h(1), h(2)], &[]), vec![h(1), h(2)]);
    assert_eq!(missing_changes(&[], &[h(1)]), vec![]);
    assert_eq!(missing_changes(&[h(1), h(1)], &[h(2)]), vec![h(1), h(1)]);
    assert_eq!(missing_changes(&[h(1), h(2)], &[h(2), h(1), h(3)]), vec![]);
}
