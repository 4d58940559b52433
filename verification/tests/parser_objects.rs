//! The parser objects mirror the parsing on the types themselves.

use itertools::Itertools;

use storm::config::key::parser::{
    InvisibleKeyParser, KeyKindParser, KeyModifierParser, KeyModifiersParser, KeyParser,
    KeySequenceParser, Parser,
};
use storm::config::key::{InvisibleKey, KeyKind, KeyModifier, KeyModifiers};

#[test]
fn parser_invisible_key() {
    assert!(InvisibleKeyParser::parse("").is_none());
    for i in 0..=255u8 {
        let text = format!("<F-{}>", i);
        let (key, _) = InvisibleKeyParser::parse(&text).unwrap().unwrap();
        assert!(key == InvisibleKey::F(i));
        let shown = key.display();
        let (again, _) = InvisibleKeyParser::parse(&shown).unwrap().unwrap();
        assert!(again == key);
    }
    let (up, _) = InvisibleKeyParser::parse("<PG-UP>").unwrap().unwrap();
    assert!(up == InvisibleKey::PageUp);
    let (dn, _) = InvisibleKeyParser::parse("<PG-DN>").unwrap().unwrap();
    assert!(dn == InvisibleKey::PageDown);
}

#[test]
fn parser_key_modifier() {
    assert!(KeyModifierParser::parse("").is_none());
    let cases = [
        ("M-", KeyModifier::Alt),
        ("C-", KeyModifier::Control),
        ("S-", KeyModifier::Shift),
        ("L-", KeyModifier::Super),
    ];
    for (text, expected) in cases {
        let (m, _) = KeyModifierParser::parse(text).unwrap().unwrap();
        assert!(m == expected);
    }
}

#[test]
fn parser_key_modifiers() {
    assert!(KeyModifiersParser::parse("").is_none());
    let variants = [
        ("M-", KeyModifier::Alt),
        ("C-", KeyModifier::Control),
        ("S-", KeyModifier::Shift),
        ("L-", KeyModifier::Super),
    ];
    for n in 1..=4usize {
        for perm in variants.iter().permutations(n) {
            let text: String = perm.iter().map(|(t, _)| *t).collect();
            let mut expected = KeyModifiers::from_fn(|_| false);
            for (_, m) in &perm {
                expected.push(*m);
            }
            let (mods, _) = KeyModifiersParser::parse(&text).unwrap().unwrap();
            assert!(mods == expected);
            let shown = mods.display();
            let (again, _) = KeyModifiersParser::parse(&shown).unwrap().unwrap();
            assert!(again == expected);
        }
    }
}

#[test]
fn parser_key_kind() {
    assert!(KeyKindParser::parse("").is_none());
    let (kind, rest) = KeyKindParser::parse("foo bar<F-10>").unwrap().unwrap();
    assert!(kind == KeyKind::Visible(String::from("foo bar")));
    assert_eq!(rest, "<F-10>");

    let expected = KeyKind::Visible(String::from("<C"));
    let escaped_key = KeyKindParser::parse("\\<\\C").unwrap().unwrap().0;
    assert!(escaped_key == expected);

    let display_key = escaped_key.display();
    let display_key = KeyKindParser::parse(&display_key).unwrap().unwrap().0;
    assert!(display_key == expected);
}

#[test]
fn parser_key() {
    assert!(KeyParser::parse("").is_none());
    let (key, rest) = KeyParser::parse("foo").unwrap().unwrap();
    assert!(key.mods == KeyModifiers::from_fn(|_| false));
    assert!(key.kind == KeyKind::Visible(String::from("foo")));
    assert_eq!(rest, "");
}

#[test]
fn sequence_parser() {
    assert!(KeySequenceParser::parse("").is_none());
    let (seq, rest) = KeySequenceParser::parse("C-q").unwrap().unwrap();
    assert_eq!(rest, "");
    assert_eq!(seq.atom_len(), 1);
}
