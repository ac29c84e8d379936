use dpm_server::chars_of_str;
use dpm_server::string_of_chars;
use dpm_server::PackageBasicInfo;
use dpm_server::RepoError;
use dpm_server::RepoInfo;

fn sample_entry(tag: &str) -> PackageBasicInfo {
    PackageBasicInfo {
        url: format!("https://example.invalid/{}.zip", tag),
        file_name: format!("{}.zip", tag),
        version: "1.2.3".to_string(),
        hash: "abcd".to_string(),
        dependencies: Some(vec!["dep-one".to_string(), "dep-two".to_string()]),
    }
}

fn assert_entries_equal(a: &PackageBasicInfo, b: &PackageBasicInfo) {
    assert_eq!(a.url, b.url);
    assert_eq!(a.file_name, b.file_name);
    assert_eq!(a.version, b.version);
    assert_eq!(a.hash, b.hash);
    assert_eq!(a.dependencies, b.dependencies);
}

#[test]
fn empty_registry_round_trips() {
    let reg = RepoInfo::new();
    let json = reg.to_json();
    assert_eq!(string_of_chars(&json), "{}");
    let loaded = RepoInfo::from_json(&json).expect("empty registry must load");
    assert!(!loaded.has_package("anything"));
}

#[test]
fn registry_round_trips_entries() {
    let mut reg = RepoInfo::new();
    reg.add_package_with_info("alpha".to_string(), sample_entry("alpha"));
    reg.add_package_with_info(
        "beta".to_string(),
        PackageBasicInfo {
            url: "https://example.invalid/beta.zip".to_string(),
            file_name: "beta.zip".to_string(),
            version: "0.0.1".to_string(),
            hash: "ff00".to_string(),
            dependencies: None,
        },
    );
    let json = reg.to_json();
    let loaded = RepoInfo::from_json(&json).expect("registry must load");
    assert!(loaded.has_package("alpha"));
    assert!(loaded.has_package("beta"));
    assert_entries_equal(loaded.get_package("alpha").unwrap(), &sample_entry("alpha"));
    assert_eq!(loaded.get_package("beta").unwrap().version, "0.0.1");
    assert!(loaded.get_package("beta").unwrap().dependencies.is_none());
}

#[test]
fn registry_round_trips_awkward_strings() {
    let mut reg = RepoInfo::new();
    let entry = PackageBasicInfo {
        url: "quote \" backslash \\ newline \n tab \t end".to_string(),
        file_name: "weird\r.zip".to_string(),
        version: "1.0".to_string(),
        hash: "00".to_string(),
        dependencies: Some(vec!["a\"b".to_string()]),
    };
    reg.add_package_with_info("we\"ird".to_string(), entry);
    let json = reg.to_json();
    let loaded = RepoInfo::from_json(&json).expect("registry must load");
    let got = loaded.get_package("we\"ird").unwrap();
    assert_eq!(got.url, "quote \" backslash \\ newline \n tab \t end");
    assert_eq!(got.file_name, "weird\r.zip");
    assert_eq!(got.dependencies, Some(vec!["a\"b".to_string()]));
}

#[test]
fn registry_rejects_malformed_text() {
    assert_eq!(RepoInfo::from_json(&chars_of_str("")).unwrap_err(), RepoError::ParseError);
    assert_eq!(RepoInfo::from_json(&chars_of_str("{")).unwrap_err(), RepoError::ParseError);
    assert_eq!(RepoInfo::from_json(&chars_of_str("{}x")).unwrap_err(), RepoError::ParseError);
    assert_eq!(
        RepoInfo::from_json(&chars_of_str("not json at all")).unwrap_err(),
        RepoError::ParseError
    );
    assert_eq!(
        RepoInfo::from_json(&chars_of_str("{\"a\":{\"url\":\"u\"}}")).unwrap_err(),
        RepoError::ParseError
    );
}

#[test]
fn add_then_remove_returns_the_entry() {
    let mut reg = RepoInfo::new();
    reg.add_package(
        "gamma".to_string(),
        "https://example.invalid/gamma.zip".to_string(),
        "gamma.zip".to_string(),
        "2.0.0".to_string(),
        "beef".to_string(),
        None,
    );
    assert!(reg.has_package("gamma"));
    let removed = reg.remove_package("gamma").expect("entry was just added");
    assert_eq!(removed.url, "https://example.invalid/gamma.zip");
    assert_eq!(removed.file_name, "gamma.zip");
    assert_eq!(removed.version, "2.0.0");
    assert_eq!(removed.hash, "beef");
    assert!(!reg.has_package("gamma"));
}

#[test]
fn remove_of_absent_name_is_refused() {
    let mut reg = RepoInfo::new();
    let err = reg.remove_package("nowhere").unwrap_err();
    assert_eq!(err, RepoError::PackageNotFound);
    let err2 = reg.get_package("nowhere").unwrap_err();
    assert_eq!(err2, RepoError::PackageNotFound);
}

#[test]
fn update_overwrites_only_given_fields() {
    let mut reg = RepoInfo::new();
    reg.add_package_with_info("delta".to_string(), sample_entry("delta"));
    reg.update_package(
        "delta",
        None,
        None,
        Some("9.9.9".to_string()),
        Some("1234".to_string()),
        None,
    );
    let got = reg.get_package("delta").unwrap();
    assert_eq!(got.version, "9.9.9");
    assert_eq!(got.hash, "1234");
    assert_eq!(got.url, sample_entry("delta").url);
    assert_eq!(got.dependencies, sample_entry("delta").dependencies);
}

#[test]
fn update_of_absent_name_registers_defaults() {
    let mut reg = RepoInfo::new();
    reg.update_package("fresh", Some("u".to_string()), None, None, None, None);
    let got = reg.get_package("fresh").unwrap();
    assert_eq!(got.url, "u");
    assert_eq!(got.file_name, "");
    assert_eq!(got.version, "");
    assert_eq!(got.hash, "");
    assert!(got.dependencies.is_none());
}

#[test]
fn registry_json_shape_is_canonical() {
    let mut reg = RepoInfo::new();
    reg.add_package_with_info(
        "p".to_string(),
        PackageBasicInfo {
            url: "u".to_string(),
            file_name: "p.zip".to_string(),
            version: "1".to_string(),
            hash: "aa".to_string(),
            dependencies: None,
        },
    );
    let json = string_of_chars(&reg.to_json());
    assert_eq!(
        json,
        "{\"p\":{\"url\":\"u\",\"file_name\":\"p.zip\",\"version\":\"1\",\"hash\":\"aa\",\"dependencies\":null}}"
    );
}
