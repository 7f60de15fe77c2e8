use package_metadata::error::EncodeError;
use package_metadata::hexcodec::HexError;
use package_metadata::model::{
    AccountAddress, Any, ModuleMetadata, MoveOption, PackageDep, PackageMetadata, UpgradePolicy,
};
use package_metadata::pipeline::{metadata_hex, payload_bytes, payload_text, InputError};
use serde_json::Value;

const MINIMAL_JSON: &str = "{\"name\":\"demo\",\"upgrade_policy\":{\"policy\":1},\"upgrade_number\":0,\"source_digest\":\"\",\"manifest\":[],\"modules\":[],\"deps\":[],\"extension\":{\"value\":[]}}";

fn bytes_of(v: &Value) -> Vec<u8> {
    v.as_array().unwrap().iter().map(|b| b.as_u64().unwrap() as u8).collect()
}

fn any_of(v: &Value) -> Any {
    Any { type_tag: v["type_name"].as_str().unwrap().to_string(), data: bytes_of(&v["data"]) }
}

fn option_of(v: &Value) -> MoveOption<Any> {
    MoveOption { value: v["value"].as_array().unwrap().iter().map(any_of).collect() }
}

fn module_of(v: &Value) -> ModuleMetadata {
    ModuleMetadata {
        name: v["name"].as_str().unwrap().to_string(),
        source: bytes_of(&v["source"]),
        source_map: bytes_of(&v["source_map"]),
        extension: option_of(&v["extension"]),
    }
}

fn dep_of(v: &Value) -> PackageDep {
    PackageDep {
        account: AccountAddress::parse(v["account"].as_str().unwrap()).unwrap(),
        package_name: v["package_name"].as_str().unwrap().to_string(),
    }
}

fn package_of(text: &str) -> PackageMetadata {
    let v: Value = serde_json::from_str(text).unwrap();
    PackageMetadata {
        name: v["name"].as_str().unwrap().to_string(),
        upgrade_policy: UpgradePolicy { policy: v["upgrade_policy"]["policy"].as_u64().unwrap() as u8 },
        upgrade_number: v["upgrade_number"].as_u64().unwrap(),
        source_digest: v["source_digest"].as_str().unwrap().to_string(),
        manifest: bytes_of(&v["manifest"]),
        modules: v["modules"].as_array().unwrap().iter().map(module_of).collect(),
        deps: v["deps"].as_array().unwrap().iter().map(dep_of).collect(),
        extension: option_of(&v["extension"]),
    }
}

fn convert(arg: &str) -> String {
    let text = payload_text(arg).unwrap();
    metadata_hex(&package_of(&text)).unwrap()
}

#[test]
fn minimal_package_converts_to_a_fixed_text() {
    let arg = hex::encode(MINIMAL_JSON);
    let expected = "0464656d6f0100000000000000000000000000";
    assert_eq!(convert(&arg), expected);
    assert_eq!(convert(&arg), convert(&arg));
}

#[test]
fn payload_text_gives_the_carried_text() {
    assert_eq!(payload_text("48656c6c6f20776f726c6421"), Ok("Hello world!".to_string()));
    assert_eq!(payload_text(&hex::encode(MINIMAL_JSON)), Ok(MINIMAL_JSON.to_string()));
    assert_eq!(payload_text(""), Ok(String::new()));
    assert_eq!(payload_text("C3A9"), Ok("\u{e9}".to_string()));
}

#[test]
fn argument_with_a_non_hex_character_is_an_input_error() {
    let mut arg = hex::encode(MINIMAL_JSON);
    arg.replace_range(4..5, "q");
    let expected = InputError::Hex(HexError::InvalidHexCharacter { c: 'q', index: 4 });
    assert_eq!(payload_text(&arg), Err(expected));
    assert_eq!(payload_bytes(&arg), Err(expected));
}

#[test]
fn argument_of_odd_length_is_an_input_error() {
    assert_eq!(payload_text("abc"), Err(InputError::Hex(HexError::OddLength)));
    assert_eq!(payload_bytes("abc"), Err(InputError::Hex(HexError::OddLength)));
}

#[test]
fn argument_that_is_not_utf8_is_an_input_error() {
    assert_eq!(payload_text("ff"), Err(InputError::Utf8));
    assert_eq!(payload_text("c3"), Err(InputError::Utf8));
    assert_eq!(payload_bytes("ff"), Ok(vec![0xff]));
}

#[test]
fn payload_bytes_gives_the_carried_bytes() {
    assert_eq!(payload_bytes("a11ceb0b06000000"), Ok(vec![0xa1, 0x1c, 0xeb, 0x0b, 6, 0, 0, 0]));
    assert_eq!(payload_bytes("A11CEB0B"), Ok(vec![0xa1, 0x1c, 0xeb, 0x0b]));
    assert_eq!(payload_bytes(""), Ok(vec![]));
}

#[test]
fn metadata_hex_is_the_hex_of_the_canonical_bytes() {
    let p = package_of(MINIMAL_JSON);
    assert_eq!(metadata_hex(&p), Ok(hex::encode(p.to_bytes().unwrap())));
    let back = PackageMetadata::from_bytes(&payload_bytes(&metadata_hex(&p).unwrap()).unwrap());
    assert_eq!(back, Ok(p));
}

#[test]
fn package_with_a_dependency_converts_and_comes_back() {
    let account = "a272d39841bac0be1e8a8f5f4ab3185be67527cd7f5d8f3973df6140961299f9";
    let text = MINIMAL_JSON.replace(
        "\"deps\":[]",
        &format!("\"deps\":[{{\"account\":\"{}\",\"package_name\":\"demo\"}}]", account),
    );
    let out = convert(&hex::encode(&text));
    let expected = format!("0464656d6f01{}01{}0464656d6f00", "00".repeat(11), account);
    assert_eq!(out, expected);
    let back = PackageMetadata::from_bytes(&payload_bytes(&out).unwrap()).unwrap();
    assert_eq!(back.deps.len(), 1);
    assert_eq!(back.deps[0].account.to_text(), account);
    assert_eq!(back.deps[0].package_name, "demo");
}

#[test]
fn package_with_modules_converts_to_the_expected_text() {
    let text = MINIMAL_JSON.replace(
        "\"modules\":[]",
        "\"modules\":[{\"name\":\"m\",\"source\":[1,2],\"source_map\":[],\"extension\":{\"value\":[{\"type_name\":\"t\",\"data\":[9]}]}}]",
    );
    let out = convert(&hex::encode(&text));
    let expected = format!("0464656d6f01{}01016d0201020001017401090000", "00".repeat(10));
    assert_eq!(out, expected);
}

#[test]
fn encode_error_has_one_kind() {
    assert_eq!(EncodeError::ExceededMaxLen, EncodeError::ExceededMaxLen.clone());
}
