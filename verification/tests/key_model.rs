//! The key model: parsing, display, merging, containment.

use itertools::Itertools;

use storm::config::key::{
    InvisibleKey, Key, KeyKind, KeyModifier, KeyModifiers, KeySequence, Parser, ParserError,
};

fn no_mods() -> KeyModifiers {
    KeyModifiers::from_fn(|_| false)
}

fn all_mods() -> KeyModifiers {
    KeyModifiers::from_fn(|_| true)
}

fn visible(mods: KeyModifiers, text: &str) -> Key {
    Key::new(mods, KeyKind::Visible(String::from(text)))
}

#[test]
fn key_sequence_contains() {
    let a = KeySequence::from_keys(vec![
        visible(no_mods(), "foo"),
        visible(all_mods(), "bar"),
    ]);
    let b = KeySequence::from_keys(vec![visible(no_mods(), "foo")]);
    assert!(a.contains(&b));
}

#[test]
fn key_sequence_flatten() {
    let a = KeySequence::from_keys(vec![
        visible(no_mods(), "foo"),
        visible(no_mods(), "bar"),
        visible(all_mods(), "foo"),
        visible(all_mods(), "bar"),
    ]);
    let b = KeySequence::from_keys(vec![
        visible(no_mods(), "foobar"),
        visible(all_mods(), "foobar"),
    ]);
    assert!(a == b);
}

#[test]
fn merge_law() {
    // same modifiers: one element holding the concatenated text
    let merged = KeySequence::from_keys(vec![
        visible(no_mods(), "ab"),
        visible(no_mods(), "cd"),
    ]);
    assert_eq!(merged.len(), 1);
    assert_eq!(merged.atom_len(), 4);
    // different modifiers: two elements
    let separate = KeySequence::from_keys(vec![
        visible(no_mods(), "ab"),
        visible(all_mods(), "cd"),
    ]);
    assert_eq!(separate.len(), 2);
    assert_eq!(separate.atom_len(), 4);
}

#[test]
fn prefix_law() {
    let mut shift = no_mods();
    shift.push(KeyModifier::Shift);
    let a = KeySequence::from_keys(vec![visible(no_mods(), "foo"), visible(shift, "bar")]);
    let b = KeySequence::from_keys(vec![visible(no_mods(), "foo")]);
    assert!(a.contains(&b));
    // a mismatching element refutes containment
    let c = KeySequence::from_keys(vec![visible(no_mods(), "fox")]);
    assert!(!a.contains(&c));
}

#[test]
fn key_invisible_key() {
    for i in 0..=255u8 {
        let text = format!("<F-{}>", i);
        let (key, rest) = InvisibleKey::parse(&text).unwrap().unwrap();
        assert!(key == InvisibleKey::F(i));
        assert_eq!(rest, "");
        // display round trip
        let shown = key.display();
        let (again, _) = InvisibleKey::parse(&shown).unwrap().unwrap();
        assert!(again == key);
    }
    let (up, _) = InvisibleKey::parse("<PG-UP>").unwrap().unwrap();
    assert!(up == InvisibleKey::PageUp);
    assert_eq!(up.display(), "<PG-UP>");
    let (dn, _) = InvisibleKey::parse("<PG-DN>").unwrap().unwrap();
    assert!(dn == InvisibleKey::PageDown);
    assert_eq!(dn.display(), "<PG-DN>");
}

#[test]
fn key_key_modifier() {
    let cases = [
        ("M-", KeyModifier::Alt),
        ("C-", KeyModifier::Control),
        ("S-", KeyModifier::Shift),
        ("L-", KeyModifier::Super),
    ];
    for (text, expected) in cases {
        let (m, rest) = KeyModifier::parse(text).unwrap().unwrap();
        assert!(m == expected);
        assert_eq!(rest, "");
        assert_eq!(m.display(), text);
    }
    assert!(KeyModifier::parse("").is_none());
    assert!(KeyModifier::parse("x-").is_none());
}

#[test]
fn key_key_modifiers() {
    let variants = [
        ("M-", KeyModifier::Alt),
        ("C-", KeyModifier::Control),
        ("S-", KeyModifier::Shift),
        ("L-", KeyModifier::Super),
    ];
    for n in 1..=4usize {
        for perm in variants.iter().permutations(n) {
            let text: String = perm.iter().map(|(t, _)| *t).collect();
            let mut expected = KeyModifiers::from_fn(|_| false);
            for (_, m) in &perm {
                expected.push(*m);
            }
            let (mods, rest) = KeyModifiers::parse(&text).unwrap().unwrap();
            assert!(mods == expected);
            assert_eq!(rest, "");
            // the canonical display parses back to the same set
            let shown = mods.display();
            let (again, rest2) = KeyModifiers::parse(&shown).unwrap().unwrap();
            assert!(again == expected);
            assert_eq!(rest2, "");
        }
    }
    assert!(KeyModifiers::parse("").is_none());
}

#[test]
fn key_key_kind() {
    let (kind, rest) = KeyKind::parse("foo bar<F-10>").unwrap().unwrap();
    assert!(kind == KeyKind::Visible(String::from("foo bar")));
    assert_eq!(rest, "<F-10>");

    let expected = KeyKind::Visible(String::from("<C"));
    let escaped_key = KeyKind::parse("\\<\\C").unwrap().unwrap().0;
    assert!(escaped_key == expected);

    let display_key = escaped_key.display();
    let display_key = KeyKind::parse(&display_key).unwrap().unwrap().0;
    assert!(display_key == expected);
}

#[test]
fn key_parse_faults() {
    // a backslash with nothing to escape
    match KeyKind::parse("ab\\") {
        Some(Err(ParserError::UnusedEscape { src, index })) => {
            assert_eq!(src, "ab\\");
            assert_eq!(index, 2);
        }
        other => panic!("expected an unused escape, got {:?}", other),
    }
    // an unknown bracketed name
    match KeyKind::parse("<NOPE>") {
        Some(Err(ParserError::UnknownSpecialKey(s))) => assert_eq!(s, "NOPE"),
        other => panic!("expected an unknown key, got {:?}", other),
    }
    // a bracket that never closes
    match KeyKind::parse("<F-1") {
        Some(Err(ParserError::UnclosedSpecialKey(s))) => assert_eq!(s, "<F-1"),
        other => panic!("expected an unclosed key, got {:?}", other),
    }
    // a function key number too large for a byte
    assert!(matches!(
        KeyKind::parse("<F-256>"),
        Some(Err(ParserError::UnknownSpecialKey(_)))
    ));
}

#[test]
fn round_trip() {
    // parse(display(S)) == S for sequences the grammar produces
    for text in [
        "foo",
        "C-q",
        "M-C-S-L-x",
        "<PG-UP>",
        "C-<F-10>ab",
        "a<PG-DN>b",
        "\\<\\C\\M",
        "C-aM-b<F-3>",
    ] {
        let (seq, rest) = KeySequence::parse(text).unwrap().unwrap();
        assert_eq!(rest, "");
        let shown = seq.display();
        let (again, rest2) = KeySequence::parse(&shown).unwrap().unwrap();
        assert_eq!(rest2, "");
        assert!(again == seq, "round trip failed for {:?} via {:?}", text, shown);
    }
    // a partial parse returns the unreadable tail
    let (seq, rest) = KeySequence::parse("foo bar<F-10>").unwrap().unwrap();
    let shown = seq.display();
    assert_eq!(rest, "");
    assert!(shown.contains("foo bar"));
}

#[test]
fn sequence_reserve_and_clear() {
    let mut seq = KeySequence::with_capacity(8);
    seq.reserve(4);
    seq.push(visible(no_mods(), "a"));
    seq.shrink_to_fit();
    assert_eq!(seq.len(), 1);
    let mut cleared = seq;
    cleared.clear();
    assert_eq!(cleared.len(), 0);
}
