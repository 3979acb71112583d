use pack_graph::graph::{DeltaTree, DeltaTreeBuilder, EntryRead, Error, Node};
use pack_graph::header::{Header, HeaderError};

fn blob() -> EntryRead {
    EntryRead::Bytes(vec![0x30])
}

fn commit() -> EntryRead {
    EntryRead::Bytes(vec![0x10])
}

fn tree() -> EntryRead {
    EntryRead::Bytes(vec![0x20])
}

fn tag() -> EntryRead {
    EntryRead::Bytes(vec![0x40])
}

/// An offset delta whose base lies `distance` bytes before it (distance below 128).
fn ofs_delta(distance: u8) -> EntryRead {
    EntryRead::Bytes(vec![0x60, distance])
}

fn ref_delta(fill: u8) -> EntryRead {
    let mut bytes = vec![0x70];
    bytes.extend(std::iter::repeat(fill).take(20));
    EntryRead::Bytes(bytes)
}

fn io_failure() -> std::io::Error {
    std::io::Error::new(std::io::ErrorKind::Other, "injected")
}

fn offsets_of(nodes: &[Node]) -> Vec<u64> {
    let mut v: Vec<u64> = nodes.iter().map(|n| n.pack_offset).collect();
    v.sort();
    v
}

fn node_at(tree: &DeltaTree, offset: u64) -> Node {
    let mut pending = tree.bases();
    let mut buf = Vec::new();
    while let Some(n) = pending.pop() {
        if n.pack_offset == offset {
            return n;
        }
        tree.children(n, &mut buf);
        pending.extend(buf.iter().copied());
    }
    panic!("no node at offset {}", offset)
}

fn child_offsets(tree: &DeltaTree, n: Node) -> Vec<u64> {
    let mut buf = Vec::new();
    tree.children(n, &mut buf);
    offsets_of(&buf)
}

#[test]
fn blob_commit_and_offset_delta() {
    let offsets = vec![0u64, 50, 120];
    let t = DeltaTree::from_sorted_offsets(&offsets, vec![blob(), commit(), ofs_delta(120)]).unwrap();
    assert_eq!(t.node_count(), 3);
    assert_eq!(offsets_of(&t.bases()), vec![0, 50]);
    assert_eq!(child_offsets(&t, node_at(&t, 0)), vec![120]);
    assert_eq!(child_offsets(&t, node_at(&t, 50)), Vec::<u64>::new());
    assert_eq!(child_offsets(&t, node_at(&t, 120)), Vec::<u64>::new());
}

#[test]
fn tree_and_reference_delta_are_unconnected_roots() {
    let offsets = vec![0u64, 80];
    let t = DeltaTree::from_sorted_offsets(&offsets, vec![tree(), ref_delta(0xab)]).unwrap();
    assert_eq!(t.node_count(), 2);
    assert_eq!(offsets_of(&t.bases()), vec![0, 80]);
    assert!(child_offsets(&t, node_at(&t, 0)).is_empty());
    assert!(child_offsets(&t, node_at(&t, 80)).is_empty());
}

#[test]
fn seek_failure_on_third_of_five_fails_the_build() {
    let offsets = vec![0u64, 10, 20, 30, 40];
    let seek_error = std::io::Error::new(std::io::ErrorKind::Other, "seek failed at 20");
    let reads = vec![blob(), ofs_delta(10), EntryRead::SeekFailed(seek_error), blob(), blob()];
    match DeltaTree::from_sorted_offsets(&offsets, reads) {
        Err(e @ Error::Seek { pack_offset: 20, .. }) => {
            assert_eq!(e.message(), "Seek to next offset failed");
            match e {
                Error::Seek { source, .. } => assert_eq!(source.to_string(), "seek failed at 20"),
                _ => unreachable!(),
            }
        }
        Err(other) => panic!("unexpected error {:?}", other),
        Ok(_) => panic!("a build with a failed seek must not succeed"),
    }
}

#[test]
fn read_failure_is_reported_as_header_parse_failure() {
    let offsets = vec![0u64, 10];
    let reads = vec![blob(), EntryRead::ReadFailed(io_failure())];
    match DeltaTree::from_sorted_offsets(&offsets, reads) {
        Err(e @ Error::Read { pack_offset: 10, .. }) => assert_eq!(e.message(), "EOF while parsing header"),
        other => panic!("unexpected result {:?}", other.map(|t| t.node_count())),
    }
}

#[test]
fn malformed_header_fails_the_build() {
    let offsets = vec![0u64, 10];
    let reads = vec![blob(), EntryRead::Bytes(vec![0x50])];
    match DeltaTree::from_sorted_offsets(&offsets, reads) {
        Err(e @ Error::Header { pack_offset: 10, error: HeaderError::UnknownKind { kind: 5 } }) => {
            assert_eq!(e.message(), "EOF while parsing header")
        }
        other => panic!("unexpected result {:?}", other.map(|t| t.node_count())),
    }
}

#[test]
fn delta_before_its_base_is_an_error() {
    // the base at offset 5 is not among the entries
    let offsets = vec![0u64, 10];
    let reads = vec![blob(), ofs_delta(5)];
    match DeltaTree::from_sorted_offsets(&offsets, reads) {
        Err(Error::MissingBase { pack_offset: 10, base_offset: 5 }) => {}
        other => panic!("unexpected result {:?}", other.map(|t| t.node_count())),
    }
}

#[test]
fn first_failure_wins() {
    let offsets = vec![0u64, 10, 20];
    let reads = vec![blob(), EntryRead::Bytes(vec![]), EntryRead::SeekFailed(io_failure())];
    match DeltaTree::from_sorted_offsets(&offsets, reads) {
        Err(Error::Header { pack_offset: 10, error: HeaderError::UnexpectedEof }) => {}
        other => panic!("unexpected result {:?}", other.map(|t| t.node_count())),
    }
}

#[test]
fn node_count_equals_entry_count_for_delta_chains() {
    // 0 <- 10 <- 20, 0 <- 30, 40 ref delta, 50 <- 60
    let offsets = vec![0u64, 10, 20, 30, 40, 50, 60];
    let reads = vec![tag(), ofs_delta(10), ofs_delta(10), ofs_delta(30), ref_delta(1), tree(), ofs_delta(10)];
    let t = DeltaTree::from_sorted_offsets(&offsets, reads).unwrap();
    assert_eq!(t.node_count(), offsets.len());
    assert_eq!(offsets_of(&t.bases()), vec![0, 40, 50]);
    assert_eq!(child_offsets(&t, node_at(&t, 0)), vec![10, 30]);
    assert_eq!(child_offsets(&t, node_at(&t, 10)), vec![20]);
    assert_eq!(child_offsets(&t, node_at(&t, 50)), vec![60]);
    assert!(child_offsets(&t, node_at(&t, 20)).is_empty());
}

#[test]
fn children_are_listed_latest_first() {
    let offsets = vec![0u64, 10, 20, 30];
    let reads = vec![blob(), ofs_delta(10), ofs_delta(20), ofs_delta(30)];
    let t = DeltaTree::from_sorted_offsets(&offsets, reads).unwrap();
    let mut buf = Vec::new();
    t.children(node_at(&t, 0), &mut buf);
    let listed: Vec<u64> = buf.iter().map(|n| n.pack_offset).collect();
    assert_eq!(listed, vec![30, 20, 10]);
}

#[test]
fn children_twice_with_one_buffer_agree() {
    let offsets = vec![0u64, 10, 20];
    let t = DeltaTree::from_sorted_offsets(&offsets, vec![blob(), ofs_delta(10), ofs_delta(20)]).unwrap();
    let base = node_at(&t, 0);
    let mut buf = vec![base, base, base];
    t.children(base, &mut buf);
    let first: Vec<u64> = buf.iter().map(|n| n.pack_offset).collect();
    t.children(base, &mut buf);
    let second: Vec<u64> = buf.iter().map(|n| n.pack_offset).collect();
    assert_eq!(first, vec![20, 10]);
    assert_eq!(first, second);
}

#[test]
fn empty_offsets_give_empty_tree() {
    let t = DeltaTree::from_sorted_offsets(&Vec::new(), Vec::new()).unwrap();
    assert_eq!(t.node_count(), 0);
    assert!(t.bases().is_empty());
}

#[test]
fn builder_adds_entries_one_by_one() {
    let mut b = DeltaTreeBuilder::new();
    b.add(0, &Header::Commit).unwrap();
    b.add(7, &Header::RefDelta { oid: vec![0; 20] }).unwrap();
    match b.add(9, &Header::OfsDelta { pack_offset: 3 }) {
        Err(Error::MissingBase { pack_offset: 9, base_offset: 3 }) => {}
        other => panic!("unexpected result {:?}", other),
    }
    b.add(12, &Header::OfsDelta { pack_offset: 7 }).unwrap();
    let t = b.finish();
    assert_eq!(t.node_count(), 3);
    assert_eq!(offsets_of(&t.bases()), vec![0, 7]);
    assert_eq!(child_offsets(&t, node_at(&t, 7)), vec![12]);
}

#[test]
fn node_offset_getter_matches_field() {
    let offsets = vec![3u64, 9];
    let t = DeltaTree::from_sorted_offsets(&offsets, vec![blob(), ofs_delta(6)]).unwrap();
    let bases = t.bases();
    assert_eq!(bases.len(), 1);
    assert_eq!(bases[0].pack_offset(), 3);
    let mut buf = Vec::new();
    t.children(bases[0], &mut buf);
    assert_eq!(buf.iter().map(|n| n.pack_offset()).collect::<Vec<u64>>(), vec![9]);
}
