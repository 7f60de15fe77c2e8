use package_metadata::lexical::bytes_less;
use package_metadata::model::{AccountAddress, PackageDep};
use package_metadata::order::compare_bytes;
use std::cmp::Ordering;

fn samples() -> Vec<Vec<u8>> {
    vec![
        vec![],
        vec![0],
        vec![0, 0],
        vec![0, 1],
        vec![1],
        vec![1, 0],
        vec![1, 255],
        vec![2],
        vec![127],
        vec![128],
        vec![255],
        vec![255, 0],
        vec![255, 255],
    ]
}

fn addr(first: u8, last: u8) -> AccountAddress {
    let mut bytes = [7u8; 32];
    bytes[0] = first;
    bytes[31] = last;
    AccountAddress::new(bytes)
}

fn dep(first: u8, name: &str) -> PackageDep {
    PackageDep { account: addr(first, 0), package_name: name.to_string() }
}

#[test]
fn bytes_less_is_the_order_of_slices() {
    for a in samples() {
        for b in samples() {
            assert_eq!(bytes_less(&a, &b), a < b, "{:?} against {:?}", a, b);
        }
    }
}

#[test]
fn compare_bytes_is_the_order_of_slices() {
    for a in samples() {
        for b in samples() {
            assert_eq!(compare_bytes(&a, &b), a.cmp(&b), "{:?} against {:?}", a, b);
        }
    }
}

#[test]
fn a_prefix_comes_first() {
    assert!(bytes_less(b"dem", b"demo"));
    assert!(!bytes_less(b"demo", b"dem"));
    assert!(!bytes_less(b"demo", b"demo"));
    assert_eq!(compare_bytes(b"demo", b"demo"), Ordering::Equal);
    assert_eq!(compare_bytes(b"", b""), Ordering::Equal);
    assert_eq!(compare_bytes(b"", b"a"), Ordering::Less);
}

#[test]
fn address_order_agrees_with_its_total_order() {
    let all = [addr(0, 0), addr(0, 1), addr(0, 255), addr(1, 0), addr(128, 0), addr(255, 255)];
    for a in all {
        for b in all {
            assert_eq!(a.partial_cmp(&b), Some(a.cmp(&b)));
            assert_eq!(a < b, a.to_bytes() < b.to_bytes());
            assert_eq!(a == b, a.partial_cmp(&b) == Some(Ordering::Equal));
        }
    }
}

#[test]
fn dependency_order_agrees_with_its_total_order() {
    let all = [
        dep(0, ""),
        dep(0, "a"),
        dep(0, "ab"),
        dep(0, "b"),
        dep(0, "\u{e9}"),
        dep(1, ""),
        dep(1, "a"),
        dep(200, "Z"),
        dep(200, "a"),
    ];
    for a in &all {
        for b in &all {
            assert_eq!(a.partial_cmp(b), Some(a.cmp(b)));
            let by_tuple =
                (a.account.to_bytes(), a.package_name.as_bytes()).cmp(&(b.account.to_bytes(), b.package_name.as_bytes()));
            assert_eq!(a.partial_cmp(b), Some(by_tuple));
        }
    }
}

#[test]
fn account_decides_before_the_name() {
    assert!(dep(1, "zzz") < dep(2, "aaa"));
    assert!(dep(2, "aaa") > dep(1, "zzz"));
    assert!(dep(1, "aaa") < dep(1, "aab"));
    assert!(dep(1, "aaa") <= dep(1, "aaa"));
}
