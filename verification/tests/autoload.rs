use concerto::autoload::{
    add_classmap_file, autoload_file, autoload_paths, collect_autoload_sections, join_path,
    loader_file, package_file_order, php_namespace, php_symbols, vendor_package_dir, AutoloadMap,
    LOADER_BODY,
};
use concerto::composer::RequiredPackage;
use concerto::json::JsonValue;
use concerto::lockfile::{LockedPackage, Lockfile, LOCKFILE_VERSION};

fn convert(value: &serde_json::Value) -> JsonValue {
    match value {
        serde_json::Value::Null => JsonValue::Null,
        serde_json::Value::Bool(b) => JsonValue::Bool(*b),
        serde_json::Value::Number(n) => JsonValue::Number(n.to_string()),
        serde_json::Value::String(s) => JsonValue::Str(s.clone()),
        serde_json::Value::Array(items) => JsonValue::Array(items.iter().map(convert).collect()),
        serde_json::Value::Object(map) => JsonValue::Object(
            map.iter().map(|(key, value)| (key.clone(), convert(value))).collect(),
        ),
    }
}

fn json(text: &str) -> JsonValue {
    convert(&serde_json::from_str(text).unwrap())
}

fn package(name: &str, package_requires: &[RequiredPackage]) -> LockedPackage {
    LockedPackage {
        name: name.to_string(),
        version: "1.0.0".to_string(),
        dist_url: "https://example.com/package.zip".to_string(),
        dist_integrity: Some("blake3:test".to_string()),
        dist_shasum: None,
        dev: false,
        package_requires: package_requires.to_vec(),
        platform_requires: Vec::new(),
    }
}

fn required_package(name: &str) -> RequiredPackage {
    RequiredPackage { name: name.to_string(), constraint: "*".to_string() }
}

fn lockfile(packages: Vec<LockedPackage>) -> Lockfile {
    Lockfile {
        lockfile_version: LOCKFILE_VERSION,
        root_manifest_hash: "test".to_string(),
        root_requirements: Vec::new(),
        root_repositories: Vec::new(),
        packages,
    }
}

fn order_names(lockfile: &Lockfile) -> Vec<String> {
    package_file_order(lockfile).iter().map(|package| package.name.clone()).collect()
}

#[test]
fn orders_files_like_composer_dependencies_first() {
    let lockfile = lockfile(vec![
        package("vendor/a", &[required_package("vendor/b")]),
        package("vendor/b", &[]),
    ]);

    assert_eq!(order_names(&lockfile), vec!["vendor/b", "vendor/a"]);
}

#[test]
fn reads_php_symbols_for_classmap() {
    let content = r#"
    <?php

    namespace App\Domain;

    final class User {}
    interface UserRepository {}
    trait HasEmail {}
    enum UserStatus {}
    "#;

    let symbols = php_symbols(content);

    assert!(symbols.contains(&"App\\Domain\\User".to_string()));
    assert!(symbols.contains(&"App\\Domain\\UserRepository".to_string()));
    assert!(symbols.contains(&"App\\Domain\\HasEmail".to_string()));
    assert!(symbols.contains(&"App\\Domain\\UserStatus".to_string()));
}

#[test]
fn ignores_anonymous_classes_in_classmap() {
    let content = "<?php $object = new class {}; class Named {}";

    let symbols = php_symbols(content);

    assert_eq!(symbols, vec!["Named"]);
}

#[test]
fn collects_composer_autoload_sections() {
    let composer_json = json(
        r#"{
            "autoload": {
                "psr-4": { "App\\": "src/" },
                "psr-0": { "Legacy_": "legacy/" },
                "files": ["helpers.php"],
                "classmap": ["src/"]
            }
        }"#,
    );
    let mut autoload = AutoloadMap::new();

    let roots = collect_autoload_sections(&mut autoload, &composer_json, "/project").unwrap();
    add_classmap_file(&mut autoload, "/project/src/Mapped.php", "<?php namespace App; class Mapped {}");

    assert_eq!(autoload.psr4, vec![("App\\".to_string(), vec!["/project/src/".to_string()])]);
    assert_eq!(autoload.psr0, vec![("Legacy_".to_string(), vec!["/project/legacy/".to_string()])]);
    assert_eq!(autoload.files, vec!["/project/helpers.php".to_string()]);
    assert_eq!(roots, vec!["/project/src/".to_string()]);
    assert_eq!(
        autoload.classmap,
        vec![("App\\Mapped".to_string(), "/project/src/Mapped.php".to_string())]
    );
}

#[test]
fn file_order_visits_each_package_once_and_in_name_order() {
    let lockfile = lockfile(vec![
        package("vendor/c", &[required_package("vendor/a")]),
        package("vendor/a", &[required_package("vendor/c"), required_package("missing/pkg")]),
        package("vendor/b", &[]),
        package("vendor/b", &[required_package("vendor/c")]),
    ]);

    assert_eq!(order_names(&lockfile), vec!["vendor/c", "vendor/a", "vendor/b"]);
    assert_eq!(package_file_order(&lockfile)[2].package_requires.len(), 1);
}

#[test]
fn symbols_are_unqualified_without_namespace() {
    assert_eq!(php_symbols("<?php interface Countable {} trait T {}"), vec!["Countable", "T"]);
    assert_eq!(php_namespace("<?php namespace  Acme\\Tools ;"), Some("Acme\\Tools".to_string()));
    assert_eq!(php_namespace("<?php namespace ;"), None);
    assert_eq!(php_namespace("<?php class A {}"), None);
}

#[test]
fn autoload_paths_accepts_strings_and_arrays_of_strings() {
    assert_eq!(autoload_paths(&json(r#""src/""#), "psr-4").unwrap(), vec!["src/".to_string()]);
    assert_eq!(
        autoload_paths(&json(r#"["a.php", "b.php"]"#), "files").unwrap(),
        vec!["a.php".to_string(), "b.php".to_string()]
    );
    assert_eq!(
        autoload_paths(&json("42"), "files").unwrap_err(),
        "autoload.files must be a string or an array of strings"
    );
    assert_eq!(
        autoload_paths(&json(r#"["a.php", 1]"#), "classmap").unwrap_err(),
        "autoload.classmap path must be a string"
    );
}

#[test]
fn namespace_paths_accumulate_under_one_prefix() {
    let mut autoload = AutoloadMap::new();
    collect_autoload_sections(&mut autoload, &json(r#"{"autoload":{"psr-4":{"B\\":"b","A\\":["a1","a2"]}}}"#), "/root")
        .unwrap();
    collect_autoload_sections(&mut autoload, &json(r#"{"autoload":{"psr-4":{"A\\":"/abs"}}}"#), "/pkg/")
        .unwrap();

    assert_eq!(
        autoload.psr4,
        vec![
            ("A\\".to_string(), vec!["/root/a1".to_string(), "/root/a2".to_string(), "/abs".to_string()]),
            ("B\\".to_string(), vec!["/root/b".to_string()]),
        ]
    );
}

#[test]
fn invalid_section_leaves_map_unchanged() {
    let mut autoload = AutoloadMap::new();
    let error = collect_autoload_sections(
        &mut autoload,
        &json(r#"{"autoload":{"psr-4":{"A\\":"a"},"files":[3]}}"#),
        "/root",
    )
    .unwrap_err();

    assert_eq!(error, "autoload.files path must be a string");
    assert!(autoload.psr4.is_empty());
}

#[test]
fn later_classmap_file_wins_for_a_class() {
    let mut autoload = AutoloadMap::new();
    add_classmap_file(&mut autoload, "/one.php", "<?php class Same {} class Zed {}");
    add_classmap_file(&mut autoload, "/two.php", "<?php class Same {}");

    assert_eq!(
        autoload.classmap,
        vec![("Same".to_string(), "/two.php".to_string()), ("Zed".to_string(), "/one.php".to_string())]
    );
}

#[test]
fn joins_paths_like_the_file_system() {
    assert_eq!(join_path("/root", "src"), "/root/src");
    assert_eq!(join_path("/root/", "src"), "/root/src");
    assert_eq!(join_path("/root", "/etc"), "/etc");
    assert_eq!(join_path("", "src"), "src");
    assert_eq!(vendor_package_dir("psr/log").unwrap(), "vendor/psr/log");
    assert!(vendor_package_dir("psr").is_err());
}

#[test]
fn loader_file_frames_the_map_data() {
    let text = loader_file("{\"files\":[]}");

    assert!(text.starts_with("<?php\n\n$autoloadJson = <<<'CONCERTO_AUTOLOAD_JSON'\n{\"files\":[]}\nCONCERTO_AUTOLOAD_JSON;"));
    assert!(text.ends_with(LOADER_BODY));
    assert!(autoload_file().contains("spl_autoload_register($loader);"));
}

#[test]
fn file_order_breaks_cycles_at_the_first_name() {
    let lockfile = lockfile(vec![
        package("vendor/b", &[required_package("vendor/a")]),
        package("vendor/a", &[required_package("vendor/b")]),
        package("vendor/c", &[required_package("vendor/a")]),
    ]);

    assert_eq!(order_names(&lockfile), vec!["vendor/b", "vendor/a", "vendor/c"]);
}
