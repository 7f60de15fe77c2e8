use package_metadata::error::DecodeError;
use package_metadata::model::{
    AccountAddress, Any, ModuleMetadata, MoveOption, PackageDep, PackageMetadata, UpgradePolicy,
};
use serde_bytes::ByteBuf;

type AnyMirror = (String, ByteBuf);
type OptionMirror = (Vec<AnyMirror>,);
type ModuleMirror = (String, ByteBuf, ByteBuf, OptionMirror);
type DepMirror = ([u8; 32], String);
type PackageMirror = (
    String,
    (u8,),
    u64,
    String,
    ByteBuf,
    Vec<ModuleMirror>,
    Vec<DepMirror>,
    OptionMirror,
);

fn mirror_any(a: &Any) -> AnyMirror {
    (a.type_tag.clone(), ByteBuf::from(a.data.clone()))
}

fn mirror_option(o: &MoveOption<Any>) -> OptionMirror {
    (o.value.iter().map(mirror_any).collect(),)
}

fn mirror_module(m: &ModuleMetadata) -> ModuleMirror {
    (
        m.name.clone(),
        ByteBuf::from(m.source.clone()),
        ByteBuf::from(m.source_map.clone()),
        mirror_option(&m.extension),
    )
}

fn mirror_dep(d: &PackageDep) -> DepMirror {
    (d.account.to_bytes(), d.package_name.clone())
}

fn mirror_package(p: &PackageMetadata) -> PackageMirror {
    (
        p.name.clone(),
        (p.upgrade_policy.policy,),
        p.upgrade_number,
        p.source_digest.clone(),
        ByteBuf::from(p.manifest.clone()),
        p.modules.iter().map(mirror_module).collect(),
        p.deps.iter().map(mirror_dep).collect(),
        mirror_option(&p.extension),
    )
}

fn bcs_fault(e: bcs::Error) -> DecodeError {
    match e {
        bcs::Error::Eof => DecodeError::Eof,
        bcs::Error::ExceededMaxLen(_) => DecodeError::ExceededMaxLen,
        bcs::Error::Utf8 => DecodeError::Utf8,
        bcs::Error::NonCanonicalUleb128Encoding => DecodeError::NonCanonicalUleb128,
        bcs::Error::IntegerOverflowDuringUleb128Decoding => DecodeError::Uleb128Overflow,
        bcs::Error::RemainingInput => DecodeError::RemainingInput,
        other => panic!("unexpected bcs error: {:?}", other),
    }
}

fn bcs_decode(bytes: &[u8]) -> Result<PackageMirror, DecodeError> {
    bcs::from_bytes::<PackageMirror>(bytes).map_err(bcs_fault)
}

fn address(seed: u8) -> AccountAddress {
    let mut bytes = [0u8; 32];
    for (i, b) in bytes.iter_mut().enumerate() {
        *b = seed.wrapping_add(i as u8);
    }
    AccountAddress::new(bytes)
}

fn any(tag: &str, data: &[u8]) -> Any {
    Any { type_tag: tag.to_string(), data: data.to_vec() }
}

fn module(name: &str, source: &[u8], map: &[u8], extension: MoveOption<Any>) -> ModuleMetadata {
    ModuleMetadata {
        name: name.to_string(),
        source: source.to_vec(),
        source_map: map.to_vec(),
        extension,
    }
}

fn dep(seed: u8, name: &str) -> PackageDep {
    PackageDep { account: address(seed), package_name: name.to_string() }
}

fn bare_package() -> PackageMetadata {
    PackageMetadata {
        name: "demo".to_string(),
        upgrade_policy: UpgradePolicy { policy: 1 },
        upgrade_number: 0,
        source_digest: String::new(),
        manifest: Vec::new(),
        modules: Vec::new(),
        deps: Vec::new(),
        extension: MoveOption::none(),
    }
}

fn full_package() -> PackageMetadata {
    PackageMetadata {
        name: "counter".to_string(),
        upgrade_policy: UpgradePolicy { policy: 2 },
        upgrade_number: 0x0123456789abcdef,
        source_digest: "9F86D081884C7D65".to_string(),
        manifest: b"[package]\nname = \"counter\"\n".to_vec(),
        modules: vec![
            module("first", b"module first {}", &[1, 2, 3], MoveOption::none()),
            module(
                "second",
                &[0u8; 200],
                &[],
                MoveOption::some(any("0x1::string::String", &[3, b'a', b'b', b'c'])),
            ),
        ],
        deps: vec![dep(0, "AptosFramework"), dep(0xf0, "demo")],
        extension: MoveOption::some(any("0x1::meta::V1", &[0xff, 0x00])),
    }
}

#[test]
fn bare_package_has_the_expected_bytes() {
    let bytes = bare_package().to_bytes().unwrap();
    let mut expected = vec![4u8, b'd', b'e', b'm', b'o', 1];
    expected.extend_from_slice(&[0u8; 8]);
    expected.extend_from_slice(&[0, 0, 0, 0, 0]);
    assert_eq!(bytes, expected);
}

#[test]
fn package_without_collections_ends_in_three_zero_bytes() {
    let mut p = bare_package();
    p.source_digest = "abc".to_string();
    p.manifest = vec![7, 8];
    let bytes = p.to_bytes().unwrap();
    let n = bytes.len();
    assert_eq!(&bytes[n - 3..], &[0, 0, 0]);
    assert_eq!(&bytes[n - 6..n - 3], &[2, 7, 8]);
    assert_eq!(n, 5 + 1 + 8 + 4 + 3 + 3);
}

#[test]
fn package_encoding_agrees_with_bcs() {
    for p in [bare_package(), full_package()] {
        assert_eq!(p.to_bytes().unwrap(), bcs::to_bytes(&mirror_package(&p)).unwrap());
    }
}

#[test]
fn component_encodings_agree_with_bcs() {
    let p = full_package();
    for m in &p.modules {
        assert_eq!(m.to_bytes().unwrap(), bcs::to_bytes(&mirror_module(m)).unwrap());
    }
    for d in &p.deps {
        assert_eq!(d.to_bytes().unwrap(), bcs::to_bytes(&mirror_dep(d)).unwrap());
    }
    let a = any("tag", &[1, 2, 3]);
    assert_eq!(a.to_bytes().unwrap(), bcs::to_bytes(&mirror_any(&a)).unwrap());
    assert_eq!(
        p.extension.to_bytes().unwrap(),
        bcs::to_bytes(&mirror_option(&p.extension)).unwrap()
    );
}

#[test]
fn package_round_trips() {
    for p in [bare_package(), full_package()] {
        let bytes = p.to_bytes().unwrap();
        assert_eq!(PackageMetadata::from_bytes(&bytes), Ok(p.clone()));
        assert_eq!(bcs_decode(&bytes), Ok(mirror_package(&p)));
    }
}

#[test]
fn encoding_twice_gives_the_same_bytes() {
    let p = full_package();
    assert_eq!(p.to_bytes(), p.to_bytes());
    assert_eq!(p.clone().to_bytes(), p.to_bytes());
}

#[test]
fn components_round_trip() {
    let p = full_package();
    for m in &p.modules {
        assert_eq!(ModuleMetadata::from_bytes(&m.to_bytes().unwrap()), Ok(m.clone()));
    }
    let a = any("0x1::any::Any", &[9; 40]);
    assert_eq!(Any::from_bytes(&a.to_bytes().unwrap()), Ok(a));
}

#[test]
fn dependency_round_trips_with_account_and_name_unchanged() {
    let text = "a272d39841bac0be1e8a8f5f4ab3185be67527cd7f5d8f3973df6140961299f9";
    let d = PackageDep {
        account: AccountAddress::from_hex(text).unwrap(),
        package_name: "demo".to_string(),
    };
    let bytes = d.to_bytes().unwrap();
    assert_eq!(bytes.len(), 32 + 1 + 4);
    assert_eq!(&bytes[..32], &hex::decode(text).unwrap()[..]);
    assert_eq!(&bytes[32..], &[4, b'd', b'e', b'm', b'o']);
    let back = PackageDep::from_bytes(&bytes).unwrap();
    assert_eq!(back.account, d.account);
    assert_eq!(back.account.to_text(), text);
    assert_eq!(back.package_name, "demo");
}

#[test]
fn absent_option_is_one_zero_byte() {
    let none: MoveOption<Any> = MoveOption::none();
    assert!(none.is_none());
    let bytes = none.to_bytes().unwrap();
    assert_eq!(bytes, vec![0]);
    let back = MoveOption::<Any>::from_bytes(&bytes).unwrap();
    assert_eq!(back.value.len(), 0);
}

#[test]
fn present_option_is_a_one_element_sequence() {
    let x = any("t", &[5]);
    let some = MoveOption::some(x.clone());
    assert!(!some.is_none());
    let bytes = some.to_bytes().unwrap();
    assert_eq!(bytes, vec![1, 1, b't', 1, 5]);
    let back = MoveOption::<Any>::from_bytes(&bytes).unwrap();
    assert_eq!(back.value, vec![x]);
}

#[test]
fn option_is_not_a_presence_byte_before_a_value() {
    let native: Option<AnyMirror> = None;
    assert_eq!(bcs::to_bytes(&native).unwrap(), MoveOption::<Any>::none().to_bytes().unwrap());
    let bytes = MoveOption::some(any("", &[])).to_bytes().unwrap();
    assert_eq!(bytes, vec![1, 0, 0]);
}

#[test]
fn module_order_changes_the_encoding() {
    let p = full_package();
    let mut q = p.clone();
    q.modules.reverse();
    assert_ne!(p, q);
    let a = p.to_bytes().unwrap();
    let b = q.to_bytes().unwrap();
    assert_ne!(a, b);
    assert_eq!(a.len(), b.len());
    assert_eq!(PackageMetadata::from_bytes(&b), Ok(q));
}

#[test]
fn dependency_order_is_kept() {
    let mut p = bare_package();
    p.deps = vec![dep(9, "zeta"), dep(1, "alpha")];
    let back = PackageMetadata::from_bytes(&p.to_bytes().unwrap()).unwrap();
    assert_eq!(back.deps[0].package_name, "zeta");
    assert_eq!(back.deps[1].package_name, "alpha");
}

#[test]
fn unknown_extension_passes_through_unchanged() {
    let mut p = bare_package();
    p.extension = MoveOption::some(any("0x99::unknown::Kind", &[0xde, 0xad, 0xbe, 0xef]));
    let back = PackageMetadata::from_bytes(&p.to_bytes().unwrap()).unwrap();
    assert_eq!(back.extension.value[0].data, vec![0xde, 0xad, 0xbe, 0xef]);
    assert_eq!(back.extension.value[0].type_tag, "0x99::unknown::Kind");
}

#[test]
fn trailing_bytes_are_refused() {
    let mut bytes = bare_package().to_bytes().unwrap();
    bytes.push(0);
    assert_eq!(PackageMetadata::from_bytes(&bytes), Err(DecodeError::RemainingInput));
    assert_eq!(bcs_decode(&bytes), Err(DecodeError::RemainingInput));
    assert_eq!(Any::from_bytes(&[0, 0, 0]), Err(DecodeError::RemainingInput));
    assert_eq!(MoveOption::<Any>::from_bytes(&[0, 1]), Err(DecodeError::RemainingInput));
}

#[test]
fn every_truncation_fails_as_bcs_does() {
    let bytes = full_package().to_bytes().unwrap();
    for n in 0..bytes.len() {
        let ours = PackageMetadata::from_bytes(&bytes[..n]);
        let theirs = bcs_decode(&bytes[..n]);
        assert!(ours.is_err(), "prefix of {} bytes decoded", n);
        assert_eq!(ours.err(), theirs.err(), "prefix of {} bytes", n);
    }
}

#[test]
fn every_single_byte_change_decodes_as_bcs_does() {
    let p = full_package();
    let bytes = p.to_bytes().unwrap();
    for i in 0..bytes.len() {
        for delta in [1u8, 0x80, 0xff] {
            let mut changed = bytes.clone();
            changed[i] = changed[i].wrapping_add(delta);
            let ours = PackageMetadata::from_bytes(&changed);
            let theirs = bcs_decode(&changed);
            match (ours, theirs) {
                (Ok(v), Ok(m)) => {
                    assert_eq!(mirror_package(&v), m);
                    assert_ne!(v, p);
                    assert_eq!(v.to_bytes().unwrap(), changed);
                }
                (Err(e), Err(r)) => assert_eq!(e, r, "byte {} changed by {}", i, delta),
                (ours, theirs) => panic!(
                    "byte {} changed by {}: {:?} against {:?}",
                    i, delta, ours, theirs
                ),
            }
        }
    }
}

#[test]
fn decode_reports_each_fault() {
    assert_eq!(PackageMetadata::from_bytes(&[]), Err(DecodeError::Eof));
    assert_eq!(PackageMetadata::from_bytes(&[1, 0xff]), Err(DecodeError::Utf8));
    assert_eq!(PackageMetadata::from_bytes(&[0x80, 0x00]), Err(DecodeError::NonCanonicalUleb128));
    assert_eq!(
        PackageMetadata::from_bytes(&[0xff, 0xff, 0xff, 0xff, 0x1f]),
        Err(DecodeError::Uleb128Overflow)
    );
    assert_eq!(
        PackageMetadata::from_bytes(&[0x80, 0x80, 0x80, 0x80, 0x08]),
        Err(DecodeError::ExceededMaxLen)
    );
    let mut bytes = bare_package().to_bytes().unwrap();
    bytes.push(7);
    assert_eq!(PackageMetadata::from_bytes(&bytes), Err(DecodeError::RemainingInput));
}

#[test]
fn dependency_needs_all_32_account_bytes() {
    let mut bytes = vec![0u8; 31];
    assert_eq!(PackageDep::from_bytes(&bytes), Err(DecodeError::Eof));
    bytes.push(0);
    assert_eq!(PackageDep::from_bytes(&bytes), Err(DecodeError::Eof));
    bytes.push(0);
    let d = PackageDep::from_bytes(&bytes).unwrap();
    assert_eq!(d.account.to_bytes(), [0u8; 32]);
    assert_eq!(d.package_name, "");
}

#[test]
fn module_list_with_a_large_count_and_no_elements_fails_cleanly() {
    let mut bytes = bare_package().to_bytes().unwrap();
    let n = bytes.len();
    bytes.truncate(n - 3);
    bytes.extend_from_slice(&[0xff, 0xff, 0xff, 0xff, 0x07]);
    assert_eq!(PackageMetadata::from_bytes(&bytes), Err(DecodeError::Eof));
    assert_eq!(bcs_decode(&bytes), Err(DecodeError::Eof));
}

#[test]
fn sequence_with_more_than_127_elements_round_trips() {
    let mut p = bare_package();
    for i in 0..300u32 {
        p.deps.push(dep(i as u8, &format!("dep{}", i)));
    }
    let bytes = p.to_bytes().unwrap();
    assert_eq!(bytes, bcs::to_bytes(&mirror_package(&p)).unwrap());
    assert_eq!(PackageMetadata::from_bytes(&bytes), Ok(p));
}

#[test]
fn option_with_two_elements_is_carried_as_a_sequence() {
    let odd = MoveOption { value: vec![any("a", &[]), any("b", &[1])] };
    let bytes = odd.to_bytes().unwrap();
    assert_eq!(bytes, bcs::to_bytes(&mirror_option(&odd)).unwrap());
    assert_eq!(MoveOption::<Any>::from_bytes(&bytes), Ok(odd));
}
