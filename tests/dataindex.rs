use rand::{RngCore, SeedableRng};
use rand_chacha::ChaChaRng;
use revisionstore::dataindex::{DataIndex, DataIndexOptions};
use revisionstore::entry::{DeltaBaseOffset, DeltaLocation, IndexEntry};
use revisionstore::error::{DataIndexError, HeaderFault};
use revisionstore::node::Node;

fn random_node(rng: &mut ChaChaRng) -> Node {
    let mut bytes = [0u8; 20];
    rng.fill_bytes(&mut bytes);
    Node::new(bytes)
}

fn node_of(first: u8, second: u8, last: u8) -> Node {
    let mut bytes = [0u8; 20];
    bytes[0] = first;
    bytes[1] = second;
    bytes[19] = last;
    Node::new(bytes)
}

fn make_index(values: &Vec<(Node, DeltaLocation)>) -> DataIndex {
    let mut buf: Vec<u8> = Vec::new();
    DataIndex::write(&mut buf, values).expect("write dataindex");
    DataIndex::new(buf).expect("dataindex")
}

fn full_text(offset: u64, size: u64) -> DeltaLocation {
    DeltaLocation { delta_base: None, offset, size }
}

#[test]
fn test_header_invalid() {
    let buf: Vec<u8> = vec![2, 0];
    assert_eq!(
        DataIndexOptions::read(&buf),
        Err(DataIndexError::InvalidHeader(HeaderFault::UnsupportedVersion(2)))
    );

    let buf: Vec<u8> = vec![0, 1];
    assert_eq!(
        DataIndexOptions::read(&buf),
        Err(DataIndexError::InvalidHeader(HeaderFault::InvalidConfig(1)))
    );
}

#[test]
fn test_missing_delta_base() {
    let mut rng = ChaChaRng::from_seed([0u8; 32]);
    let node = random_node(&mut rng);
    let base = random_node(&mut rng);
    let values = vec![(node, DeltaLocation { delta_base: Some(base), offset: 1, size: 2 })];
    let index = make_index(&values);

    let delta = index.get_entry(&node).unwrap();
    assert_eq!(delta.delta_base_offset(), DeltaBaseOffset::Missing);
}

#[test]
fn test_missing_key() {
    let mut rng = ChaChaRng::from_seed([0u8; 32]);
    let node = random_node(&mut rng);
    let values = vec![(node, full_text(1, 2))];
    let index = make_index(&values);

    let other = random_node(&mut rng);
    assert!(matches!(index.get_entry(&other), Err(DataIndexError::KeyNotFound(n)) if n == other));
}

#[test]
fn test_header_serialization() {
    for version in 0u8..2 {
        for large in [false, true] {
            let options = DataIndexOptions { version, large };
            let mut buf: Vec<u8> = vec![];
            options.write(&mut buf);
            assert_eq!(buf, vec![version, if large { 0x80 } else { 0 }]);
            assert_eq!(DataIndexOptions::read(&buf), Ok(options));
        }
    }
}

#[test]
fn test_header_empty_and_short() {
    assert_eq!(DataIndexOptions::read(&[]), Err(DataIndexError::InvalidHeader(HeaderFault::Empty)));
    assert_eq!(DataIndexOptions::read(&[1]), Err(DataIndexError::InvalidHeader(HeaderFault::Empty)));
    assert!(matches!(DataIndex::new(vec![]), Err(DataIndexError::InvalidHeader(HeaderFault::Empty))));
    assert!(matches!(
        DataIndex::new(vec![1, 0, 0, 0]),
        Err(DataIndexError::InvalidHeader(HeaderFault::Truncated(4)))
    ));
}

#[test]
fn test_roundtrip_index() {
    let mut rng = ChaChaRng::from_seed([7u8; 32]);
    let mut nodes: Vec<(Node, u64)> = Vec::new();
    for i in 0..200u64 {
        nodes.push((random_node(&mut rng), i * 3));
    }
    let last_node = nodes.pop().unwrap().0;

    let mut values: Vec<(Node, DeltaLocation)> = Vec::new();
    let mut offset = 0;
    for &(node, size) in nodes.iter() {
        let size = size + 1;
        values.push((node, full_text(offset, size)));
        offset += size;
    }
    let index = make_index(&values);

    let mut offset = 0;
    for &(node, size) in nodes.iter() {
        let size = size + 1;
        let entry = index.get_entry(&node).expect("get_entry");
        assert_eq!(entry.node(), &node);
        assert_eq!(entry.delta_base_offset(), DeltaBaseOffset::FullText);
        assert_eq!(entry.pack_entry_offset(), offset);
        assert_eq!(entry.pack_entry_size(), size);
        offset += size;
    }
    assert!(index.get_entry(&last_node).is_err());
}

#[test]
fn test_empty_index_has_no_keys() {
    let index = make_index(&Vec::new());
    let node = node_of(1, 2, 3);
    assert!(matches!(index.get_entry(&node), Err(DataIndexError::KeyNotFound(_))));
}

#[test]
fn test_delta_base_offset_points_at_base() {
    let a = node_of(0x10, 0, 1);
    let b = node_of(0x20, 0, 2);
    let c = node_of(0x05, 0, 3);
    let values = vec![
        (a, DeltaLocation { delta_base: Some(b), offset: 10, size: 20 }),
        (b, full_text(30, 40)),
        (c, DeltaLocation { delta_base: Some(a), offset: 70, size: 5 }),
    ];
    let index = make_index(&values);
    // Sorted order is c, a, b: offsets 0, 40, 80.
    let entry_a = index.get_entry(&a).unwrap();
    assert_eq!(entry_a.delta_base_offset(), DeltaBaseOffset::Offset(80));
    let base = index.read_entry(80).unwrap();
    assert_eq!(base.node(), &b);
    assert_eq!(base.pack_entry_offset(), 30);
    let entry_c = index.get_entry(&c).unwrap();
    assert_eq!(entry_c.delta_base_offset(), DeltaBaseOffset::Offset(40));
    assert_eq!(index.read_entry(40).unwrap().node(), &a);
    assert_eq!(index.get_entry(&b).unwrap().delta_base_offset(), DeltaBaseOffset::FullText);
    assert_eq!(index.read_entry(0).unwrap().node(), &c);
    assert!(matches!(index.read_entry(120), Err(DataIndexError::InvalidEntryOffset(120))));
}

#[test]
fn test_entries_sorted_and_layout() {
    let a = node_of(0x02, 0, 0);
    let b = node_of(0x01, 0xff, 0);
    let values = vec![(a, full_text(1, 2)), (b, full_text(3, 4))];
    let mut buf: Vec<u8> = Vec::new();
    DataIndex::write(&mut buf, &values).unwrap();
    assert_eq!(buf.len(), 2 + 1024 + 8 + 80);
    assert_eq!(&buf[0..2], &[1, 0]);
    // Slots 0 and 1 start at 0, slot 2 at 40, the rest at 80.
    assert_eq!(&buf[2..6], &[0, 0, 0, 0]);
    assert_eq!(&buf[6..10], &[0, 0, 0, 0]);
    assert_eq!(&buf[10..14], &[0, 0, 0, 40]);
    assert_eq!(&buf[14..18], &[0, 0, 0, 80]);
    assert_eq!(&buf[1022..1026], &[0, 0, 0, 80]);
    assert_eq!(&buf[1026..1034], &[0, 0, 0, 0, 0, 0, 0, 2]);
    let start = 1034;
    assert_eq!(&buf[start..start + 20], b.as_bytes());
    assert_eq!(&buf[start + 20..start + 24], &[0xff, 0xff, 0xff, 0xff]);
    assert_eq!(&buf[start + 24..start + 32], &[0, 0, 0, 0, 0, 0, 0, 3]);
    assert_eq!(&buf[start + 32..start + 40], &[0, 0, 0, 0, 0, 0, 0, 4]);
    assert_eq!(&buf[start + 40..start + 60], a.as_bytes());
}

#[test]
fn test_duplicate_node_refused() {
    let a = node_of(3, 3, 3);
    let values = vec![(a, full_text(1, 2)), (node_of(4, 0, 0), full_text(0, 1)), (a, full_text(5, 6))];
    let mut buf: Vec<u8> = vec![9];
    assert!(matches!(DataIndex::write(&mut buf, &values), Err(DataIndexError::DuplicateNode(n)) if n == a));
    assert_eq!(buf, vec![9]);
}

fn distinct_values(n: usize) -> Vec<(Node, DeltaLocation)> {
    let mut values = Vec::new();
    for i in 0..n {
        let mut bytes = [0u8; 20];
        bytes[0] = (i % 256) as u8;
        bytes[1] = ((i / 256) % 256) as u8;
        bytes[2] = (i / 65536) as u8;
        values.push((Node::new(bytes), full_text(i as u64, 1)));
    }
    values
}

#[test]
fn test_large_fanout_selection() {
    let values = distinct_values(8193);
    let mut buf: Vec<u8> = Vec::new();
    DataIndex::write(&mut buf, &values).unwrap();
    assert_eq!(buf[1], 0x80);
    assert_eq!(buf.len(), 2 + 4 * 65536 + 8 + 40 * 8193);
    let index = DataIndex::new(buf).unwrap();
    for (node, location) in values.iter().step_by(97) {
        let entry = index.get_entry(node).unwrap();
        assert_eq!(entry.pack_entry_offset(), location.offset);
    }

    let values = distinct_values(8192);
    let mut buf: Vec<u8> = Vec::new();
    DataIndex::write(&mut buf, &values).unwrap();
    assert_eq!(buf[1], 0x00);
}

#[test]
fn test_invalid_delta_base_value() {
    let node = node_of(1, 1, 1);
    let mut buf: Vec<u8> = Vec::new();
    DataIndex::write(&mut buf, &vec![(node, full_text(1, 2))]).unwrap();
    let at = 2 + 1024 + 8 + 20;
    buf[at..at + 4].copy_from_slice(&[0xff, 0xff, 0xff, 0xfd]);
    let index = DataIndex::new(buf).unwrap();
    assert_eq!(index.get_entry(&node).unwrap_err(), DataIndexError::InvalidDeltaBaseOffset(-3));
}

#[test]
fn test_delta_base_offset_codes() {
    assert_eq!(DeltaBaseOffset::Offset(40).to_i32(), 40);
    assert_eq!(DeltaBaseOffset::FullText.to_i32(), -1);
    assert_eq!(DeltaBaseOffset::Missing.to_i32(), -2);
    assert_eq!(DeltaBaseOffset::Offset(0xffff_fffe).to_i32(), -2);
    assert_eq!(DeltaBaseOffset::new(7), Ok(DeltaBaseOffset::Offset(7)));
    assert_eq!(DeltaBaseOffset::new(-1), Ok(DeltaBaseOffset::FullText));
    assert_eq!(DeltaBaseOffset::new(-2), Ok(DeltaBaseOffset::Missing));
    assert_eq!(DeltaBaseOffset::new(-3), Err(DataIndexError::InvalidDeltaBaseOffset(-3)));
}

#[test]
fn test_index_entry_read_write() {
    let node = node_of(0xab, 0xcd, 0xef);
    let entry = IndexEntry::new(node, DeltaBaseOffset::Offset(0x0102_0304), 0x1122_3344_5566_7788, 9);
    let mut buf: Vec<u8> = Vec::new();
    entry.write(&mut buf);
    assert_eq!(buf.len(), 40);
    assert_eq!(&buf[20..24], &[1, 2, 3, 4]);
    assert_eq!(&buf[24..32], &[0x11, 0x22, 0x33, 0x44, 0x55, 0x66, 0x77, 0x88]);
    let back = IndexEntry::read(&buf).unwrap();
    assert_eq!(back.node(), &node);
    assert_eq!(back.delta_base_offset(), DeltaBaseOffset::Offset(0x0102_0304));
    assert_eq!(back.pack_entry_offset(), 0x1122_3344_5566_7788);
    assert_eq!(back.pack_entry_size(), 9);
    assert!(matches!(IndexEntry::read(&buf[0..39]), Err(DataIndexError::InvalidEntryOffset(39))));
}

#[test]
fn test_node_from_slice() {
    assert!(Node::from_slice(&[1, 2, 3]).is_none());
    let bytes: Vec<u8> = (0..20).collect();
    let node = Node::from_slice(&bytes).unwrap();
    assert_eq!(node.as_bytes(), &bytes[..]);
}
