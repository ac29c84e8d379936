use dpm_server::commands::{Add, Del, Fix, FixAction};
use dpm_server::descriptor_from_json;
use dpm_server::descriptor_to_json;
use dpm_server::digest_bytes;
use dpm_server::fix;
use dpm_server::fix_add;
use dpm_server::init_package;
use dpm_server::reconcile_all;
use dpm_server::strip_zip_ext;
use dpm_server::ArchiveFacts;
use dpm_server::PackageBasicInfo;
use dpm_server::ReconItem;
use dpm_server::RepoInfo;

const URL_PREFIX: &str = "https://github.com/Derrick-Program/DPM-Server/raw/main/Repo/";

fn demo_descriptor() -> dpm_server::PackageInfo {
    init_package(
        "demo".to_string(),
        "main.txt".to_string(),
        "0.1.0".to_string(),
        "description".to_string(),
    )
}

#[test]
fn fix_add_derives_the_entry_from_the_build() {
    let mut repo = RepoInfo::new();
    let archive_bytes: Vec<u8> = b"archive-bytes".to_vec();
    let archive_digest = digest_bytes(&archive_bytes);
    let descriptor = demo_descriptor();
    fix_add("demo", &descriptor, archive_digest.clone(), &mut repo);
    let got = repo.get_package("demo").unwrap();
    assert_eq!(got.file_name, "demo.zip");
    assert_eq!(got.hash, archive_digest);
    assert_eq!(got.url, format!("{}demo.zip", URL_PREFIX));
    assert_eq!(got.version, "0.1.0");
    assert!(got.dependencies.is_none());
}

#[test]
fn fix_dispatches_add_and_del() {
    let mut repo = RepoInfo::new();
    let archive_digest = digest_bytes(&b"zip".to_vec());
    let facts = ArchiveFacts { descriptor: demo_descriptor(), archive_digest };
    let add = Fix { command: FixAction::Add(Add { project_name: "demo".to_string() }) };
    fix(&add, &mut repo, Some(&facts)).expect("add never fails");
    assert!(repo.has_package("demo"));

    let del = Fix { command: FixAction::Del(Del { project_name: "demo".to_string() }) };
    fix(&del, &mut repo, None).expect("entry exists");
    assert!(!repo.has_package("demo"));

    let del_again = Fix { command: FixAction::Del(Del { project_name: "demo".to_string() }) };
    let err = fix(&del_again, &mut repo, None).unwrap_err();
    assert_eq!(err, dpm_server::RepoError::PackageNotFound);
}

#[test]
fn strip_zip_ext_strips_every_trailing_extension() {
    assert_eq!(strip_zip_ext("demo.zip"), "demo");
    assert_eq!(strip_zip_ext("a.zip.zip"), "a");
    assert_eq!(strip_zip_ext("demo"), "demo");
    assert_eq!(strip_zip_ext(".zip"), "");
    assert_eq!(strip_zip_ext("archive.tar"), "archive.tar");
}

fn entries_equal(a: &PackageBasicInfo, b: &PackageBasicInfo) -> bool {
    a.url == b.url && a.file_name == b.file_name && a.version == b.version && a.hash == b.hash
        && a.dependencies == b.dependencies
}

#[test]
fn reconcile_reproduces_fix_add_entries() {
    let digest = digest_bytes(&b"zip-bytes".to_vec());
    let items = vec![ReconItem {
        zip_name: "demo.zip".to_string(),
        descriptor: demo_descriptor(),
        archive_digest: digest.clone(),
    }];
    let mut rebuilt = RepoInfo::new();
    reconcile_all(&mut rebuilt, &items);

    let mut direct = RepoInfo::new();
    fix_add("demo", &demo_descriptor(), digest, &mut direct);

    assert!(entries_equal(
        rebuilt.get_package("demo").unwrap(),
        direct.get_package("demo").unwrap()
    ));
}

#[test]
fn reconcile_twice_changes_nothing() {
    let items = vec![
        ReconItem {
            zip_name: "one.zip".to_string(),
            descriptor: init_package(
                "one".to_string(),
                "a.txt".to_string(),
                "1.0.0".to_string(),
                "first".to_string(),
            ),
            archive_digest: digest_bytes(&b"one".to_vec()),
        },
        ReconItem {
            zip_name: "two.zip".to_string(),
            descriptor: init_package(
                "two".to_string(),
                "b.txt".to_string(),
                "2.0.0".to_string(),
                "second".to_string(),
            ),
            archive_digest: digest_bytes(&b"two".to_vec()),
        },
    ];
    let mut repo = RepoInfo::new();
    reconcile_all(&mut repo, &items);
    let first_one = repo.get_package("one").unwrap().clone();
    let first_two = repo.get_package("two").unwrap().clone();
    reconcile_all(&mut repo, &items);
    assert!(entries_equal(&first_one, repo.get_package("one").unwrap()));
    assert!(entries_equal(&first_two, repo.get_package("two").unwrap()));
}

#[test]
fn descriptor_round_trips() {
    let mut descriptor = demo_descriptor();
    descriptor.dependencies = Some(vec!["base".to_string()]);
    let json = descriptor_to_json(&descriptor);
    let loaded = descriptor_from_json(&json).expect("descriptor must load");
    assert_eq!(loaded.package_name, "demo");
    assert_eq!(loaded.file_name, "main.txt");
    assert_eq!(loaded.version, "0.1.0");
    assert_eq!(loaded.description, "description");
    assert_eq!(loaded.hash, descriptor.hash);
    assert_eq!(loaded.dependencies, Some(vec!["base".to_string()]));
}

#[test]
fn descriptor_rejects_malformed_text() {
    let err = descriptor_from_json(&dpm_server::chars_of_str("{\"nope\":1}")).unwrap_err();
    assert_eq!(err, dpm_server::RepoError::ParseError);
}
