use pack_graph::header::{Header, HeaderError};

fn kind_of(bytes: &[u8], offset: u64) -> Result<(String, u64, usize), HeaderError> {
    Header::from_bytes(bytes, offset).map(|(h, size, len)| {
        let name = match h {
            Header::Tree => "tree".to_string(),
            Header::Blob => "blob".to_string(),
            Header::Commit => "commit".to_string(),
            Header::Tag => "tag".to_string(),
            Header::RefDelta { oid } => format!("ref:{}", oid.len()),
            Header::OfsDelta { pack_offset } => format!("ofs:{}", pack_offset),
        };
        (name, size, len)
    })
}

#[test]
fn self_contained_kinds() {
    assert_eq!(kind_of(&[0x15], 0), Ok(("commit".to_string(), 5, 1)));
    assert_eq!(kind_of(&[0x2f], 0), Ok(("tree".to_string(), 15, 1)));
    assert_eq!(kind_of(&[0x30, 0xff], 0), Ok(("blob".to_string(), 0, 1)));
    assert_eq!(kind_of(&[0x41], 0), Ok(("tag".to_string(), 1, 1)));
}

#[test]
fn multi_byte_size() {
    // 5 + 16 * 2
    assert_eq!(kind_of(&[0xb5, 0x02], 0), Ok(("blob".to_string(), 37, 2)));
    // 0 + 16 * (1 + 128 * 3)
    assert_eq!(kind_of(&[0x90, 0x81, 0x03, 0x99], 0), Ok(("commit".to_string(), 16 * (1 + 128 * 3), 3)));
}

#[test]
fn offset_delta_one_byte_distance() {
    assert_eq!(kind_of(&[0x65, 0x0a], 100), Ok(("ofs:90".to_string(), 5, 2)));
}

#[test]
fn offset_delta_two_byte_distance() {
    // (0 + 1) * 128 + 72 = 200
    assert_eq!(kind_of(&[0x60, 0x80, 0x48], 1000), Ok(("ofs:800".to_string(), 0, 3)));
}

#[test]
fn offset_delta_reaching_before_the_pack() {
    assert_eq!(kind_of(&[0x60, 0x0b], 10), Err(HeaderError::InvalidBaseOffset));
    assert_eq!(kind_of(&[0x60, 0x00], 10), Err(HeaderError::InvalidBaseOffset));
    assert_eq!(kind_of(&[0x60, 0xff, 0xff, 0xff, 0xff, 0xff, 0xff, 0xff, 0xff, 0xff, 0x7f], u64::MAX), Err(HeaderError::InvalidBaseOffset));
}

#[test]
fn reference_delta_takes_twenty_bytes() {
    let mut bytes = vec![0x73];
    bytes.extend((0u8..20).collect::<Vec<u8>>());
    bytes.push(0xee);
    match Header::from_bytes(&bytes, 0) {
        Ok((Header::RefDelta { oid }, 3, 21)) => assert_eq!(oid, (0u8..20).collect::<Vec<u8>>()),
        _ => panic!("expected a reference delta"),
    }
}

#[test]
fn truncated_headers() {
    assert_eq!(kind_of(&[], 0), Err(HeaderError::UnexpectedEof));
    assert_eq!(kind_of(&[0x90], 0), Err(HeaderError::UnexpectedEof));
    assert_eq!(kind_of(&[0x60], 10), Err(HeaderError::UnexpectedEof));
    assert_eq!(kind_of(&[0x60, 0x81], 1000), Err(HeaderError::UnexpectedEof));
    assert_eq!(kind_of(&[0x70, 1, 2, 3], 0), Err(HeaderError::UnexpectedEof));
}

#[test]
fn unknown_kinds() {
    assert_eq!(kind_of(&[0x00], 0), Err(HeaderError::UnknownKind { kind: 0 }));
    assert_eq!(kind_of(&[0x50], 0), Err(HeaderError::UnknownKind { kind: 5 }));
}

#[test]
fn size_too_large() {
    let bytes = [0x9f, 0xff, 0xff, 0xff, 0xff, 0xff, 0xff, 0xff, 0xff, 0xff, 0x7f];
    assert_eq!(kind_of(&bytes, 0), Err(HeaderError::SizeOverflow));
}

#[test]
fn largest_size() {
    // 15 + 16 * (2^60 - 1) == 2^64 - 1
    let bytes = [0x9f, 0xff, 0xff, 0xff, 0xff, 0xff, 0xff, 0xff, 0xff, 0x0f];
    assert_eq!(kind_of(&bytes, 0), Ok(("commit".to_string(), u64::MAX, 10)));
}
