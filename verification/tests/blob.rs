use pymodules::blob::{parse_modules_blob, MalformedReason, ParseError};

fn push_le(out: &mut Vec<u8>, v: u32) {
    out.push((v & 0xFF) as u8);
    out.push(((v >> 8) & 0xFF) as u8);
    out.push(((v >> 16) & 0xFF) as u8);
    out.push(((v >> 24) & 0xFF) as u8);
}

fn encode(entries: &[(&[u8], &[u8])]) -> Vec<u8> {
    let mut out = Vec::new();
    push_le(&mut out, entries.len() as u32);
    for (name, data) in entries {
        push_le(&mut out, name.len() as u32);
        push_le(&mut out, data.len() as u32);
    }
    for (name, _) in entries {
        out.extend_from_slice(name);
    }
    for (_, data) in entries {
        out.extend_from_slice(data);
    }
    out
}

#[test]
fn too_small_blob() {
    let blob = vec![9, 9];
    assert_eq!(parse_modules_blob(&blob).unwrap_err(), ParseError::TooSmall);
    let empty: Vec<u8> = vec![];
    assert_eq!(parse_modules_blob(&empty).unwrap_err(), ParseError::TooSmall);
    let three = vec![0, 0, 0];
    assert_eq!(parse_modules_blob(&three).unwrap_err(), ParseError::TooSmall);
}

#[test]
fn count_zero_parses_to_empty_mapping() {
    let blob = vec![0, 0, 0, 0];
    let map = parse_modules_blob(&blob).unwrap();
    assert!(map.get(&blob, b"anything").is_none());
    assert_eq!(map.entry_count(), 0);
}

#[test]
fn index_truncated() {
    // Declares two entries but holds no index records at all.
    let blob = vec![2, 0, 0, 0];
    assert_eq!(
        parse_modules_blob(&blob).unwrap_err(),
        ParseError::Malformed(MalformedReason::IndexTruncated)
    );
}

#[test]
fn declared_lengths_reach_past_the_end() {
    // One entry whose name length is far larger than the blob.
    let mut blob = Vec::new();
    push_le(&mut blob, 1);
    push_le(&mut blob, 1000);
    push_le(&mut blob, 0);
    blob.extend_from_slice(b"short");
    assert_eq!(
        parse_modules_blob(&blob).unwrap_err(),
        ParseError::Malformed(MalformedReason::DataTruncated)
    );
}

#[test]
fn huge_declared_lengths_do_not_wrap_around() {
    // Two entries whose name lengths sum past what any buffer can hold.
    let mut blob = Vec::new();
    push_le(&mut blob, 2);
    push_le(&mut blob, u32::MAX);
    push_le(&mut blob, u32::MAX);
    push_le(&mut blob, u32::MAX);
    push_le(&mut blob, u32::MAX);
    assert_eq!(
        parse_modules_blob(&blob).unwrap_err(),
        ParseError::Malformed(MalformedReason::DataTruncated)
    );
}

#[test]
fn name_must_be_utf8() {
    let blob = encode(&[(b"\xFF\xFE", b"data")]);
    assert_eq!(
        parse_modules_blob(&blob).unwrap_err(),
        ParseError::Malformed(MalformedReason::InvalidName)
    );
    // A lone continuation byte is not a character.
    let blob2 = encode(&[(b"\x80", b"data")]);
    assert_eq!(
        parse_modules_blob(&blob2).unwrap_err(),
        ParseError::Malformed(MalformedReason::InvalidName)
    );
    // An overlong encoding of '/' is rejected.
    let blob3 = encode(&[(b"\xC0\xAF", b"data")]);
    assert_eq!(
        parse_modules_blob(&blob3).unwrap_err(),
        ParseError::Malformed(MalformedReason::InvalidName)
    );
}

#[test]
fn multibyte_utf8_names_are_accepted() {
    // A two-byte, a three-byte and a four-byte character.
    let name: &[u8] = b"caf\xC3\xA9.\xE2\x82\xAC.\xF0\x9F\x90\x8D";
    let blob = encode(&[(name, b"payload")]);
    let map = parse_modules_blob(&blob).unwrap();
    assert_eq!(map.get(&blob, name).unwrap(), b"payload");
}

#[test]
fn payloads_are_views_into_the_blob() {
    let blob = encode(&[(b"m1", b"abc"), (b"m2", b"defg")]);
    let map = parse_modules_blob(&blob).unwrap();
    let p1 = map.get(&blob, b"m1").unwrap();
    let p2 = map.get(&blob, b"m2").unwrap();
    assert_eq!(p1, b"abc");
    assert_eq!(p2, b"defg");
    // The views alias the blob's own bytes: same addresses, no copy.
    let base = blob.as_ptr() as usize;
    let o1 = p1.as_ptr() as usize - base;
    let o2 = p2.as_ptr() as usize - base;
    assert_eq!(&blob[o1..o1 + 3], b"abc");
    assert_eq!(&blob[o2..o2 + 4], b"defg");
}

#[test]
fn trailing_bytes_are_tolerated() {
    let mut blob = encode(&[(b"m", b"x")]);
    blob.push(0xAA);
    let map = parse_modules_blob(&blob).unwrap();
    assert_eq!(map.get(&blob, b"m").unwrap(), b"x");
}
