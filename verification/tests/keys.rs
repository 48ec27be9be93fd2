use bolt::domain_key::{same_bytes, DomainKey};
use bolt::map_maybe::MapMaybeExt;

#[test]
fn a_key_gives_its_bytes_however_it_holds_them() {
    let owned = DomainKey::Owned(b"example.com".to_vec());
    let shared = DomainKey::Shared(b"example.com");
    assert_eq!(owned.as_ref(), b"example.com");
    assert_eq!(shared.as_ref(), b"example.com");
    assert_eq!(DomainKey::Owned(Vec::new()).as_ref(), b"");
}

#[test]
fn keys_are_equal_when_their_bytes_are() {
    let owned = DomainKey::Owned(b"example.com".to_vec());
    let shared = DomainKey::Shared(b"example.com");
    assert!(owned == shared);
    assert!(shared == owned);
    assert!(owned == DomainKey::Owned(b"example.com".to_vec()));
    assert!(owned != DomainKey::Shared(b"example.org"));
    assert!(owned != DomainKey::Shared(b"example.co"));
    assert!(DomainKey::Shared(b"") == DomainKey::Owned(Vec::new()));
}

#[test]
fn slices_with_the_same_bytes() {
    assert!(same_bytes(b"abc", b"abc"));
    assert!(same_bytes(b"", b""));
    assert!(!same_bytes(b"abc", b"abd"));
    assert!(!same_bytes(b"abc", b"ab"));
    assert!(!same_bytes(b"", b"a"));
}

#[test]
fn map_maybe_chains_onto_a_value() {
    let half = |n: u32| if n % 2 == 0 { Some(n / 2) } else { None };
    assert_eq!(Some(8u32).map_maybe(half), Some(4));
    assert_eq!(Some(7u32).map_maybe(half), None);
    assert_eq!(None::<u32>.map_maybe(half), None);
}

#[test]
fn map_maybe_does_not_call_for_nothing() {
    let calls = std::cell::Cell::new(0u32);
    let first_label = |name: &str| {
        calls.set(calls.get() + 1);
        name.split('.').next().map(|s| s.to_string())
    };
    assert_eq!(None::<&str>.map_maybe(&first_label), None);
    assert_eq!(calls.get(), 0);
    assert_eq!(Some("a.example").map_maybe(&first_label), Some("a".to_string()));
    assert_eq!(calls.get(), 1);
}
