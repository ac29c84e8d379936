use dpm_server::apply_ledger_digest;
use dpm_server::digest_bytes;
use dpm_server::init_files;
use dpm_server::init_package;
use dpm_server::recompute;
use dpm_server::string_of_chars;
use dpm_server::FileContent;
use dpm_server::PackageInfo;

const SHA256_EMPTY: &str = "e3b0c44298fc1c149afbf4c8996fb92427ae41e4649b934ca495991b7852b855";
const SHA256_ABC: &str = "ba7816bf8f01cfea414140de5dae2223b00361a396177a9cb410ff61f20015ad";

#[test]
fn digest_of_empty_bytes() {
    let data: Vec<u8> = Vec::new();
    assert_eq!(digest_bytes(&data), SHA256_EMPTY);
}

#[test]
fn digest_of_known_bytes() {
    let data: Vec<u8> = b"abc".to_vec();
    assert_eq!(digest_bytes(&data), SHA256_ABC);
}

#[test]
fn digest_is_deterministic() {
    let data: Vec<u8> = b"some file content".to_vec();
    let again: Vec<u8> = b"some file content".to_vec();
    assert_eq!(digest_bytes(&data), digest_bytes(&again));
}

#[test]
fn digest_is_sensitive_to_content() {
    let a: Vec<u8> = b"abc".to_vec();
    let b: Vec<u8> = b"abd".to_vec();
    assert_ne!(digest_bytes(&a), digest_bytes(&b));
}

#[test]
fn recompute_covers_every_file_once() {
    let files = vec![
        FileContent { path: "main.txt".to_string(), data: b"hello".to_vec() },
        FileContent { path: "sub/data.bin".to_string(), data: vec![0u8, 1, 2, 3] },
        FileContent { path: "hashes.json".to_string(), data: b"{}".to_vec() },
    ];
    let ledger = recompute(&files, "hashes.json");
    assert_eq!(ledger.len(), 2);
    let main_digest = digest_bytes(&b"hello".to_vec());
    assert_eq!(ledger.get("main.txt"), Some(&main_digest));
    let data_digest = digest_bytes(&vec![0u8, 1, 2, 3]);
    assert_eq!(ledger.get("sub/data.bin"), Some(&data_digest));
    assert_eq!(ledger.get("hashes.json"), None);
}

#[test]
fn recompute_overwrites_nothing_else() {
    let files = vec![FileContent { path: "only.txt".to_string(), data: b"x".to_vec() }];
    let ledger = recompute(&files, "hashes.json");
    assert_eq!(ledger.len(), 1);
    assert_eq!(ledger.get("absent.txt"), None);
}

#[test]
fn two_phase_ledger_write_and_descriptor_linkage() {
    let files = vec![FileContent { path: "main.txt".to_string(), data: Vec::new() }];
    let mut ledger = recompute(&files, "hashes.json");
    let json_first = string_of_chars(&ledger.to_json());
    let first_bytes = json_first.as_bytes().to_vec();
    let ledger_digest = digest_bytes(&first_bytes);
    ledger.insert("hashes.json".to_string(), ledger_digest.clone());
    assert_eq!(ledger.get("hashes.json"), Some(&ledger_digest));
    assert_eq!(ledger.len(), 2);

    let mut descriptor = PackageInfo::new(
        "demo".to_string(),
        "main.txt".to_string(),
        "0.1.0".to_string(),
        "description".to_string(),
        String::new(),
        None,
    );
    apply_ledger_digest(&mut descriptor, &first_bytes);
    assert_eq!(descriptor.hash, ledger_digest);
    assert!(!descriptor.hash.is_empty());
    assert_eq!(descriptor.package_name, "demo");
    assert_eq!(descriptor.file_name, "main.txt");
    assert_eq!(descriptor.version, "0.1.0");
    assert_eq!(descriptor.description, "description");
}

#[test]
fn init_scaffolds_default_descriptor() {
    let descriptor = init_package(
        "demo".to_string(),
        "main.txt".to_string(),
        "0.1.0".to_string(),
        "description".to_string(),
    );
    assert_eq!(descriptor.package_name, "demo");
    assert_eq!(descriptor.file_name, "main.txt");
    assert_eq!(descriptor.version, "0.1.0");
    assert_eq!(descriptor.description, "description");
    assert_eq!(descriptor.hash, SHA256_EMPTY);
    assert!(descriptor.dependencies.is_none());

    let files = init_files("main.txt");
    assert_eq!(files.len(), 3);
    assert_eq!(files[0], "main.txt");
    assert_eq!(files[1], "hashes.json");
    assert_eq!(files[2], "packageInfo.json");
}

#[test]
fn ledger_json_is_canonical() {
    let files = vec![FileContent { path: "main.txt".to_string(), data: b"hi".to_vec() }];
    let ledger = recompute(&files, "hashes.json");
    let json = string_of_chars(&ledger.to_json());
    let expected = format!("{{\"main.txt\":\"{}\"}}", digest_bytes(&b"hi".to_vec()));
    assert_eq!(json, expected);
}
