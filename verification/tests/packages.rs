use pymodules::packages::{populate_packages, NameSet};

#[test]
fn every_dotted_prefix_becomes_a_package() {
    let mut set = NameSet::new();
    populate_packages(&mut set, b"a.b.c");
    assert!(set.contains(b"a"));
    assert!(set.contains(b"a.b"));
    assert!(!set.contains(b"a.b.c"));
    assert!(!set.contains(b"b"));
    assert!(!set.contains(b""));
}

#[test]
fn name_without_dot_adds_nothing() {
    let mut set = NameSet::new();
    populate_packages(&mut set, b"plain");
    assert!(!set.contains(b"plain"));
    assert!(!set.contains(b""));
}

#[test]
fn populate_is_idempotent() {
    let names: [&[u8]; 3] = [b"x.y.z", b"x.y", b"w.v"];
    let mut once = NameSet::new();
    for name in names {
        populate_packages(&mut once, name);
    }
    let mut twice = NameSet::new();
    for name in names {
        populate_packages(&mut twice, name);
    }
    for name in names {
        populate_packages(&mut twice, name);
    }
    let probes: [&[u8]; 7] = [b"x", b"x.y", b"x.y.z", b"w", b"w.v", b"v", b""];
    for p in probes {
        assert_eq!(once.contains(p), twice.contains(p));
    }
    assert!(once.contains(b"x"));
    assert!(once.contains(b"x.y"));
    assert!(once.contains(b"w"));
    assert!(!once.contains(b"x.y.z"));
    assert!(!once.contains(b"w.v"));
}

#[test]
fn populate_is_order_independent() {
    let names: [&[u8]; 4] = [b"a.b.c.d", b"e", b"a.b", b"e.f"];
    let mut forward = NameSet::new();
    for name in names {
        populate_packages(&mut forward, name);
    }
    let mut backward = NameSet::new();
    for name in names.iter().rev() {
        populate_packages(&mut backward, name);
    }
    let probes: [&[u8]; 9] = [
        b"a", b"a.b", b"a.b.c", b"a.b.c.d", b"e", b"e.f", b"f", b"b", b"",
    ];
    for p in probes {
        assert_eq!(forward.contains(p), backward.contains(p));
    }
    assert!(forward.contains(b"a.b.c"));
    assert!(forward.contains(b"e"));
    assert!(!forward.contains(b"e.f"));
}

#[test]
fn consecutive_dots_make_empty_and_dotted_prefixes() {
    let mut set = NameSet::new();
    populate_packages(&mut set, b"a..b");
    assert!(set.contains(b"a"));
    assert!(set.contains(b"a."));
    assert!(!set.contains(b"a..b"));
}

#[test]
fn leading_dot_makes_the_empty_prefix_a_package() {
    let mut set = NameSet::new();
    populate_packages(&mut set, b".hidden");
    assert!(set.contains(b""));
    assert!(!set.contains(b".hidden"));
}
