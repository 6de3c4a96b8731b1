use adif::CiStr;
use adif::CiString;
use std::borrow::Borrow;
use std::collections::hash_map::DefaultHasher;
use std::hash::Hash;
use std::hash::Hasher;

fn hash<T>(t: &T) -> u64
where
    T: Hash + ?Sized,
{
    let mut s = DefaultHasher::new();
    t.hash(&mut s);
    s.finish()
}

#[test]
fn preserves_case() {
    let s = CiString::from("HeLLo".to_string());
    assert_eq!(s.as_str(), "HeLLo");
    assert_eq!(s.to_string(), "HeLLo");
}

#[test]
fn equality_case_insensitive() {
    let a = CiString::from("Hello".to_string());
    let b = CiString::from("hello".to_string());
    let c = CiString::from("HELLO");
    let d = CiString::from("World");

    assert_eq!(a, b);
    assert_eq!(a, c);
    assert_eq!(b, c);
    assert_ne!(a, d);
}

#[test]
fn hash_case_insensitive() {
    let a = CiString::from("Hello".to_string());
    let b = CiString::from("hello".to_string());
    let c = CiString::from("HELLO");
    let d = CiString::from("World");

    assert_eq!(hash(&a), hash(&b));
    assert_eq!(hash(&a), hash(&c));
    assert_eq!(hash(&b), hash(&c));
    assert_ne!(hash(&a), hash(&d));
}

#[test]
fn borrow() {
    let s = CiString::from("Hello".to_string());
    let borrowed: &str = s.borrow();
    assert_eq!(borrowed, "Hello");
}

#[test]
fn as_ref() {
    let s = CiString::from("HeLLo");
    let r: &str = s.as_ref();
    assert_eq!(r, "HeLLo");
}

#[test]
fn display() {
    let s = CiString::from("HeLLo".to_string());
    assert_eq!(s.to_string(), "HeLLo");
}

#[test]
fn cistr_equality_case_insensitive() {
    let a = CiStr::new("Hello");
    let b = CiStr::new("hello");
    let c = CiStr::new("HELLO");
    let d = CiStr::new("World");

    assert_eq!(a, b);
    assert_eq!(a, c);
    assert_eq!(b, c);
    assert_ne!(a, d);
}

#[test]
fn cistr_hash_case_insensitive() {
    let a = CiStr::new("Hello");
    let b = CiStr::new("hello");
    let c = CiStr::new("HELLO");
    let d = CiStr::new("World");

    assert_eq!(hash(&a), hash(&b));
    assert_eq!(hash(&a), hash(&c));
    assert_eq!(hash(&b), hash(&c));
    assert_ne!(hash(&a), hash(&d));
}

#[test]
fn cistr_cistring_hash_match() {
    let s1 = CiString::from("Hello");
    let s2 = CiStr::new("hello");
    assert_eq!(hash(&s1), hash(&s2));
}

#[test]
fn cistr_borrow() {
    let s = CiStr::new("Hello");
    assert_eq!(s.as_ref(), "Hello");
    let b: &str = s.borrow();
    assert_eq!(b, "Hello");
}

#[test]
fn cistr_display() {
    let s = CiStr::new("HeLLo");
    assert_eq!(s.to_string(), "HeLLo");
}

#[test]
fn names_with_other_letters_differ() {
    let a = CiString::from("Andr\u{e9}");
    let b = CiString::from("ANDR\u{c9}");
    assert_ne!(a, b);
    assert_eq!(a, CiString::from("ANDR\u{e9}"));
    assert_eq!(a.clone().into_string(), "Andr\u{e9}");
}
