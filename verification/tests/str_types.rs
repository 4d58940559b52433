//! The string helper types: checked cutting and splitting.

use storm::const_string::ConstString;
use storm::copy_str::CopyStr;
use storm::cut_str::CutStr;
use storm::iter_ext::{IterExt, ZipAll};
use storm::split_str::SplitStr;

#[test]
fn copy_str_get() {
    assert_eq!(CopyStr::from("foo").get(0, 1).unwrap().as_str(), "f");
    assert_eq!(CopyStr::from("foo").get(0, 2).unwrap().as_str(), "fo");
    assert_eq!(CopyStr::from("foo").get(0, 3).unwrap().as_str(), "foo");
    assert_eq!(CopyStr::from("foo").get(1, 3).unwrap().as_str(), "oo");
    assert!(CopyStr::from("foo").get(2, 1).is_none());
    assert!(CopyStr::from("foo").get(0, 4).is_none());
    // a cut through a multi-byte character is refused
    assert!(CopyStr::from("f\u{00e9}o").get(0, 2).is_none());
}

#[test]
fn copy_str_from() {
    assert_eq!(CopyStr::from("foo").as_str(), "foo");
    assert_eq!(CopyStr::from("").as_str(), "");
}

#[test]
fn copy_str_cut() {
    let cut = CopyStr::from("goodbye").cut_at_checked(4).unwrap();
    assert_eq!(cut.as_str(), "bye");
    assert!(CopyStr::from("f\u{00e9}o").cut_at_checked(2).is_none());
    let mut s = CopyStr::from("goodbye");
    s.cut_at(4);
    assert_eq!(s.as_str(), "bye");
}

#[test]
fn copy_str_split_off() {
    let mut l = CopyStr::from("foo");
    let r = l.split_off(1);
    assert_eq!(l.as_str(), "f");
    assert_eq!(r.as_str(), "oo");
}

#[test]
fn cut_str_split() {
    // cutting borrowed text
    let s = CutStr::from("goodbye");
    let bye = s.cut_checked(4).unwrap();
    assert_eq!(bye.as_str(), "bye");

    // cutting owned text
    let s = CutStr::from_string(String::from("goodbye"));
    let bye = s.cut_checked(4).unwrap();
    assert_eq!(bye.as_str(), "bye");

    // cutting an already cut run
    let ye = bye.cut_checked(1).unwrap();
    assert_eq!(ye.as_str(), "ye");

    // a cut through a multi-byte character is refused
    assert!(CutStr::from("f\u{00e9}o").cut_checked(2).is_none());
}

#[test]
fn split_str_split() {
    // splitting borrowed text
    let s = SplitStr::from("goodbye");
    let (good, bye) = s.split_at_checked(4).unwrap();
    assert_eq!(good.as_str(), "good");
    assert_eq!(bye.as_str(), "bye");

    // splitting owned text
    let s = SplitStr::from_string(String::from("goodbye"));
    let (good, bye) = s.split_at_checked(4).unwrap();
    assert_eq!(good.as_str(), "good");
    drop(good);
    assert_eq!(bye.as_str(), "bye");

    // splitting one of the halves again
    let (b, ye) = bye.split_at_checked(1).unwrap();
    assert_eq!(b.as_str(), "b");
    assert_eq!(ye.as_str(), "ye");
}

#[test]
fn const_string_basics() {
    let mut s: ConstString<4> = ConstString::new();
    assert_eq!(s.capacity(), 4);
    assert!(s.is_empty());
    s.push(b'h');
    s.push(b'i');
    assert_eq!(s.len(), 2);
    assert!(!s.is_empty());
    s.clear();
    assert!(s.is_empty());

    let filled: ConstString<3> = ConstString::new_filled(b' ');
    assert_eq!(filled.len(), 3);
}

#[test]
fn zip_all() {
    let mut iter: ZipAll<&str, &str> = vec!["foo", "bar"].zip_all(vec!["baz"]);
    assert_eq!(iter.next(), Some((Some("foo"), Some("baz"))));
    assert_eq!(iter.next(), Some((Some("bar"), None)));
    assert_eq!(iter.next(), None);
}
