use pijul_core::change::{parse, serialize, Change, ChangeHeader, VERSION};

fn h(a: u128, b: u128) -> pijul_core::changes::Hash {
    pijul_core::changes::Hash(a, b)
}

fn sample() -> Change {
    Change {
        header: ChangeHeader {
            authors: vec![b"alice".to_vec(), vec![], vec![0, 255, 7]],
            message: b"Add a.txt".to_vec(),
            description: Some(b"with contents\n".to_vec()),
            timestamp: 1_700_000_000,
        },
        dependencies: vec![h(1, 2), h(u128::MAX, 0)],
        extra_known: vec![h(3, 4)],
        hashed: vec![b"hunk one".to_vec(), vec![], b"hunk three".to_vec()],
        contents: b"hello\n".to_vec(),
    }
}

fn empty() -> Change {
    Change {
        header: ChangeHeader { authors: vec![], message: vec![], description: None, timestamp: 0 },
        dependencies: vec![],
        extra_known: vec![],
        hashed: vec![],
        contents: vec![],
    }
}

fn same(a: &Change, b: &Change) -> bool {
    a.header.authors == b.header.authors
        && a.header.message == b.header.message
        && a.header.description == b.header.description
        && a.header.timestamp == b.header.timestamp
        && a.dependencies == b.dependencies
        && a.extra_known == b.extra_known
        && a.hashed == b.hashed
        && a.contents == b.contents
}

#[test]
fn a_change_that_is_written_is_read_back() {
    for change in [sample(), empty()] {
        let bytes = serialize(&change);
        let back = parse(&bytes).expect("what was written can be read");
        assert!(same(&change, &back));
        // and written again it gives the same bytes
        assert_eq!(serialize(&back), bytes);
    }
}

#[test]
fn the_bytes_of_a_change_are_canonical() {
    let bytes = serialize(&empty());
    let mut expected = Vec::new();
    expected.extend_from_slice(&VERSION.to_le_bytes()); // format
    expected.extend_from_slice(&0u64.to_le_bytes()); // authors
    expected.extend_from_slice(&0u64.to_le_bytes()); // message
    expected.push(0); // no description
    expected.extend_from_slice(&0u64.to_le_bytes()); // timestamp
    expected.extend_from_slice(&0u64.to_le_bytes()); // dependencies
    expected.extend_from_slice(&0u64.to_le_bytes()); // known changes
    expected.extend_from_slice(&0u64.to_le_bytes()); // hunks
    expected.extend_from_slice(&0u64.to_le_bytes()); // contents
    assert_eq!(bytes, expected);

    let mut change = empty();
    change.header.message = b"hi".to_vec();
    change.header.description = Some(b"!".to_vec());
    change.header.timestamp = 0x0102;
    change.dependencies = vec![h(1, 0x0200)];
    change.contents = vec![9];
    let bytes = serialize(&change);
    let mut expected = Vec::new();
    expected.extend_from_slice(&1u64.to_le_bytes());
    expected.extend_from_slice(&0u64.to_le_bytes());
    expected.extend_from_slice(&2u64.to_le_bytes());
    expected.extend_from_slice(b"hi");
    expected.push(1);
    expected.extend_from_slice(&1u64.to_le_bytes());
    expected.extend_from_slice(b"!");
    expected.extend_from_slice(&[2, 1, 0, 0, 0, 0, 0, 0]);
    expected.extend_from_slice(&1u64.to_le_bytes());
    expected.extend_from_slice(&1u128.to_le_bytes());
    expected.extend_from_slice(&0x0200u128.to_le_bytes());
    expected.extend_from_slice(&0u64.to_le_bytes());
    expected.extend_from_slice(&0u64.to_le_bytes());
    expected.extend_from_slice(&1u64.to_le_bytes());
    expected.push(9);
    assert_eq!(bytes, expected);
}

#[test]
fn bytes_that_are_no_change_are_not_read() {
    let bytes = serialize(&sample());
    assert!(parse(&[]).is_none());
    // cut short anywhere
    for n in 0..bytes.len() {
        assert!(parse(&bytes[..n]).is_none(), "{}", n);
    }
    // something follows
    let mut longer = bytes.clone();
    longer.push(0);
    assert!(parse(&longer).is_none());
    // another format
    let mut other = bytes.clone();
    other[0] = 2;
    assert!(parse(&other).is_none());
    // a description that is neither there nor not
    let mut odd = serialize(&empty());
    odd[8 + 8 + 8] = 2;
    assert!(parse(&odd).is_none());
    // a list that claims more entries than there are bytes
    let mut greedy = serialize(&empty());
    greedy[8] = 0xff;
    assert!(parse(&greedy).is_none());
    let mut huge = serialize(&empty());
    for b in huge[8..16].iter_mut() {
        *b = 0xff;
    }
    assert!(parse(&huge).is_none());
}
