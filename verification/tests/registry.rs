use pymodules::registry::ModuleRegistry;

fn write_le(out: &mut Vec<u8>, v: u32) {
    out.push((v & 0xFF) as u8);
    out.push(((v >> 8) & 0xFF) as u8);
    out.push(((v >> 16) & 0xFF) as u8);
    out.push(((v >> 24) & 0xFF) as u8);
}

fn encode_blob_bytes(entries: &[(&[u8], &[u8])]) -> Vec<u8> {
    let mut out = Vec::new();
    write_le(&mut out, entries.len() as u32);
    for (name, data) in entries {
        write_le(&mut out, name.len() as u32);
        write_le(&mut out, data.len() as u32);
    }
    for (name, _) in entries {
        out.extend_from_slice(name);
    }
    for (_, data) in entries {
        out.extend_from_slice(data);
    }
    out
}

fn empty_blob() -> Vec<u8> {
    vec![0, 0, 0, 0]
}

#[test]
fn example_blob_lookups() {
    let source = encode_blob_bytes(&[(b"a.b", b"xyz"), (b"a", b"hi")]);
    let code = empty_blob();
    let reg = ModuleRegistry::build(&source, &code).unwrap();
    assert_eq!(reg.get_source(b"a.b").unwrap(), b"xyz");
    assert_eq!(reg.get_source(b"a").unwrap(), b"hi");
    assert!(reg.has_module(b"a.b"));
    assert!(!reg.has_module(b"c"));
}

#[test]
fn package_derivation_example() {
    let source = encode_blob_bytes(&[(b"a.b.c", b"payload")]);
    let code = empty_blob();
    let reg = ModuleRegistry::build(&source, &code).unwrap();
    assert!(reg.is_package(b"a.b"));
    assert!(reg.is_package(b"a"));
    assert!(!reg.is_package(b"a.b.c"));
    assert!(!reg.is_package(b"x"));
}

#[test]
fn empty_blob_boundary() {
    let source = empty_blob();
    let code = empty_blob();
    let reg = ModuleRegistry::build(&source, &code).unwrap();
    for name in [&b"a"[..], b"a.b", b"", b"main"] {
        assert!(!reg.has_module(name));
        assert!(!reg.is_package(name));
        assert!(reg.get_source(name).is_err());
        assert!(reg.get_code(name).is_err());
    }
}

#[test]
fn has_module_four_combinations() {
    let source = encode_blob_bytes(&[(b"src_only", b"s1"), (b"in_both", b"s2")]);
    let code = encode_blob_bytes(&[(b"code_only", b"c1"), (b"in_both", b"c2")]);
    let reg = ModuleRegistry::build(&source, &code).unwrap();

    assert!(reg.has_module(b"src_only"));
    assert!(reg.get_source(b"src_only").is_ok());
    assert!(reg.get_code(b"src_only").is_err());

    assert!(reg.has_module(b"code_only"));
    assert!(reg.get_source(b"code_only").is_err());
    assert_eq!(reg.get_code(b"code_only").unwrap(), b"c1");

    assert!(reg.has_module(b"in_both"));
    assert_eq!(reg.get_source(b"in_both").unwrap(), b"s2");
    assert_eq!(reg.get_code(b"in_both").unwrap(), b"c2");

    assert!(!reg.has_module(b"in_neither"));
    assert!(reg.get_source(b"in_neither").is_err());
    assert!(reg.get_code(b"in_neither").is_err());
}

#[test]
fn round_trip_any_order() {
    let pairs: Vec<(&[u8], &[u8])> = vec![
        (b"alpha", b"first payload"),
        (b"alpha.beta", b""),
        (b"alpha.beta.gamma", b"\x00\x01\x02\xFF"),
        (b"omega", b"last"),
    ];
    let mut reversed = pairs.clone();
    reversed.reverse();
    let forward = encode_blob_bytes(&pairs);
    let backward = encode_blob_bytes(&reversed);
    let code = empty_blob();
    let reg1 = ModuleRegistry::build(&forward, &code).unwrap();
    let reg2 = ModuleRegistry::build(&backward, &code).unwrap();
    for (name, data) in &pairs {
        assert_eq!(reg1.get_source(name).unwrap(), *data);
        assert_eq!(reg2.get_source(name).unwrap(), *data);
    }
    assert!(!reg1.has_module(b"alpha.bet"));
}

#[test]
fn duplicate_name_last_wins() {
    let source = encode_blob_bytes(&[(b"dup", b"old"), (b"other", b"x"), (b"dup", b"new")]);
    let code = empty_blob();
    let reg = ModuleRegistry::build(&source, &code).unwrap();
    assert_eq!(reg.get_source(b"dup").unwrap(), b"new");
    assert_eq!(reg.get_source(b"other").unwrap(), b"x");
}

#[test]
fn build_fails_on_first_bad_blob() {
    let good = encode_blob_bytes(&[(b"m", b"ok")]);
    let too_small = vec![1, 2];
    assert!(ModuleRegistry::build(&too_small, &good).is_err());
    assert!(ModuleRegistry::build(&good, &too_small).is_err());
    assert!(ModuleRegistry::build(&good, &good).is_ok());
}

#[test]
fn packages_from_both_blobs() {
    let source = encode_blob_bytes(&[(b"pkg.mod_a", b"s")]);
    let code = encode_blob_bytes(&[(b"other.deep.mod_b", b"c")]);
    let reg = ModuleRegistry::build(&source, &code).unwrap();
    assert!(reg.is_package(b"pkg"));
    assert!(reg.is_package(b"other"));
    assert!(reg.is_package(b"other.deep"));
    assert!(!reg.is_package(b"pkg.mod_a"));
    assert!(!reg.is_package(b"other.deep.mod_b"));
}
