//! Parser objects for the key model: each unit struct reads one kind of
//! item from the head of a string.  They decide exactly as the
//! [crate::config::key::Parser] impls on the types themselves do.

use vstd::prelude::*;

use super::{
    InvisibleKey, Key, KeyKind, KeyModifier, KeyModifiers, KeySequence,
    Parser as KeyParserTrait, err_rep, kind_matches, reps_atoms, spec_parse_invisible,
    spec_parse_kind, spec_parse_key, spec_parse_modifier, spec_parse_mods, spec_parse_seq,
};

verus! {

/// A type that some [Parser] reads.
pub trait Parsable: Sized {
    type Parser;
}

/// A reader for one kind of item: `None` when the input holds no such
/// item, the item and the rest on success, an error on malformed input.
pub trait Parser: Sized {
    type Output;

    fn parse(input: &str) -> Option<Result<(Self::Output, &str), ParserError>>;
}

/// Malformed key-sequence text; same shape as
/// [crate::config::key::ParserError].
pub type ParserError = super::ParserError;

pub struct KeyParser;

impl Parser for KeyParser {
    type Output = Key;

    fn parse(input: &str) -> (r: Option<Result<(Key, &str), ParserError>>)
        ensures
            spec_parse_key(input@) is None ==> r is None,
            spec_parse_key(input@) matches Some(Ok(p)) ==> (r matches Some(res) && res matches Ok(
                q,
            ) && q.0.mods == p.0.0 && kind_matches(q.0.kind, p.0.1) && q.1@ == input@.skip(p.1)),
            spec_parse_key(input@) matches Some(Err(f)) ==> (r matches Some(res)
                && res matches Err(e) && err_rep(e) == f),
    {
        <Key as KeyParserTrait>::parse(input)
    }
}

impl Parsable for Key {
    type Parser = KeyParser;
}

pub struct KeyKindParser;

impl Parser for KeyKindParser {
    type Output = KeyKind;

    fn parse(input: &str) -> (r: Option<Result<(KeyKind, &str), ParserError>>)
        ensures
            spec_parse_kind(input@) is None ==> r is None,
            spec_parse_kind(input@) matches Some(Ok(p)) ==> (r matches Some(res) && res matches Ok(
                q,
            ) && kind_matches(q.0, p.0) && q.1@ == input@.skip(p.1)),
            spec_parse_kind(input@) matches Some(Err(f)) ==> (r matches Some(res)
                && res matches Err(e) && err_rep(e) == f),
    {
        <KeyKind as KeyParserTrait>::parse(input)
    }
}

impl Parsable for KeyKind {
    type Parser = KeyKindParser;
}

pub struct InvisibleKeyParser;

impl Parser for InvisibleKeyParser {
    type Output = InvisibleKey;

    fn parse(input: &str) -> (r: Option<Result<(InvisibleKey, &str), ParserError>>)
        ensures
            spec_parse_invisible(input@) is None ==> r is None,
            spec_parse_invisible(input@) matches Some(Ok(p)) ==> (r matches Some(res)
                && res matches Ok(q) && q.0 == p.0 && q.1@ == input@.skip(p.1)),
            spec_parse_invisible(input@) matches Some(Err(f)) ==> (r matches Some(res)
                && res matches Err(e) && err_rep(e) == f),
    {
        <InvisibleKey as KeyParserTrait>::parse(input)
    }
}

impl Parsable for InvisibleKey {
    type Parser = InvisibleKeyParser;
}

pub struct KeyModifierParser;

impl Parser for KeyModifierParser {
    type Output = KeyModifier;

    fn parse(input: &str) -> (r: Option<Result<(KeyModifier, &str), ParserError>>)
        ensures
            spec_parse_modifier(input@) is None ==> r is None,
            spec_parse_modifier(input@) matches Some(m) ==> (r matches Some(res) && res matches Ok(
                p,
            ) && p.0 == m && p.1@ == input@.skip(2)),
    {
        <KeyModifier as KeyParserTrait>::parse(input)
    }
}

impl Parsable for KeyModifier {
    type Parser = KeyModifierParser;
}

pub struct KeyModifiersParser;

impl Parser for KeyModifiersParser {
    type Output = KeyModifiers;

    fn parse(input: &str) -> (r: Option<Result<(KeyModifiers, &str), ParserError>>)
        ensures
            spec_parse_mods(input@).1 == 0 ==> r is None,
            spec_parse_mods(input@).1 > 0 ==> (r matches Some(res) && res matches Ok(p) && p.0
                == spec_parse_mods(input@).0 && p.1@ == input@.skip(spec_parse_mods(input@).1)),
    {
        <KeyModifiers as KeyParserTrait>::parse(input)
    }
}

impl Parsable for KeyModifiers {
    type Parser = KeyModifiersParser;
}

pub struct KeySequenceParser;

impl Parser for KeySequenceParser {
    type Output = KeySequence;

    fn parse(input: &str) -> (r: Option<Result<(KeySequence, &str), ParserError>>)
        ensures
            spec_parse_seq(input@) matches Ok(p) ==> ((p.0.len() == 0 ==> r is None) && (
            p.0.len() > 0 ==> (r matches Some(res) && res matches Ok(q) && q.0.wf()
                && q.0.atoms() == reps_atoms(p.0) && q.1@ == input@.skip(p.1)))),
            spec_parse_seq(input@) matches Err(f) ==> (r matches Some(res) && res matches Err(e)
                && err_rep(e) == f),
    {
        <KeySequence as KeyParserTrait>::parse(input)
    }
}

impl Parsable for KeySequence {
    type Parser = KeySequenceParser;
}

} // verus!
