use concerto::composer::{
    is_package_name, is_platform_requirement, manifest, package_path_parts, required_packages,
    ComposerRepository, RequiredPackage,
};
use concerto::json::JsonValue;

fn convert(value: &serde_json::Value) -> JsonValue {
    match value {
        serde_json::Value::Null => JsonValue::Null,
        serde_json::Value::Bool(b) => JsonValue::Bool(*b),
        serde_json::Value::Number(n) => JsonValue::Number(n.to_string()),
        serde_json::Value::String(s) => JsonValue::Str(s.clone()),
        serde_json::Value::Array(items) => JsonValue::Array(items.iter().map(convert).collect()),
        serde_json::Value::Object(map) => JsonValue::Object(
            map.iter().map(|(key, value)| (key.clone(), convert(value))).collect(),
        ),
    }
}

fn json(text: &str) -> JsonValue {
    convert(&serde_json::from_str(text).unwrap())
}

fn required(name: &str, constraint: &str) -> RequiredPackage {
    RequiredPackage { name: name.to_string(), constraint: constraint.to_string() }
}

#[test]
fn composer_reads_required_packages() {
    let composer_json = r#"
    {
        "require": {
            "monolog/monolog": "^3.0"
        }
    }
    "#;

    let packages = required_packages(&json(composer_json)).unwrap();

    assert_eq!(packages, vec![required("monolog/monolog", "^3.0")]);
}

#[test]
fn composer_rejects_invalid_package_names() {
    assert!(package_path_parts("../evil").is_err());
    assert!(package_path_parts("monolog").is_err());
    assert!(package_path_parts("monolog/monolog").is_ok());
}

#[test]
fn tests_reads_required_packages() {
    let composer_json = r#"
    {
        "require": {
            "monolog/monolog": "^3.0"
        }
    }
    "#;

    let packages = required_packages(&json(composer_json)).unwrap();

    assert_eq!(packages, vec![required("monolog/monolog", "^3.0")]);
}

#[test]
fn reads_manifest_require_dev_and_platform_requirements_separately() {
    let composer_json = r#"
    {
        "require": {
            "php": "^8.2",
            "ext-json": "*",
            "monolog/monolog": "^3.0"
        },
        "require-dev": {
            "phpunit/phpunit": "^11.0"
        }
    }
    "#;

    let manifest = manifest(&json(composer_json)).unwrap();

    assert_eq!(manifest.package_requirements, vec![required("monolog/monolog", "^3.0")]);
    assert_eq!(
        manifest.platform_requirements,
        vec![required("ext-json", "*"), required("php", "^8.2")]
    );
    assert_eq!(manifest.require_dev, vec![required("phpunit/phpunit", "^11.0")]);
}

#[test]
fn rejects_scripts_with_clear_error() {
    let error = manifest(&json(r#"{"require":{},"scripts":{"post-install-cmd":"echo nope"}}"#))
        .unwrap_err()
        .message();

    assert!(error.contains("scripts are not supported yet"));
}

#[test]
fn rejects_plugins_with_clear_error() {
    let error = manifest(&json(r#"{"require":{},"config":{"allow-plugins":{"acme/plugin":true}}}"#))
        .unwrap_err()
        .message();

    assert!(error.contains("plugins are not supported yet"));
}

#[test]
fn accepts_suggest_as_documented_noop() {
    let manifest = manifest(&json(
        r#"
        {
            "require": {
                "psr/log": "^3.0"
            },
            "suggest": {
                "ext-intl": "Improves Unicode handling"
            }
        }
        "#,
    ))
    .unwrap();

    assert_eq!(manifest.package_requirements, vec![required("psr/log", "^3.0")]);
}

#[test]
fn rejects_invalid_suggest_with_clear_error() {
    let error = manifest(&json(r#"{"require":{},"suggest":false}"#)).unwrap_err().message();

    assert!(error.contains("suggest must be an object"));
}

#[test]
fn reads_composer_repositories() {
    let manifest = manifest(&json(
        r#"
        {
            "repositories": [
                {"type": "composer", "url": "https://repo.example.com/"}
            ],
            "require": {
                "acme/package": "^1.0"
            }
        }
        "#,
    ))
    .unwrap();

    assert_eq!(
        manifest.repositories,
        vec![ComposerRepository { url: "https://repo.example.com".to_string() }]
    );
}

#[test]
fn rejects_unsupported_repository_types() {
    let error = manifest(&json(
        r#"
        {
            "repositories": [
                {"type": "vcs", "url": "https://github.com/acme/package"}
            ],
            "require": {}
        }
        "#,
    ))
    .unwrap_err()
    .message();

    assert!(error.contains("repository type vcs is not supported yet"));
}

#[test]
fn tests_rejects_invalid_package_names() {
    assert!(package_path_parts("../evil").is_err());
    assert!(package_path_parts("monolog").is_err());
    assert!(package_path_parts("monolog/monolog").is_ok());
}

#[test]
fn distinguishes_package_names_from_platform_requirements() {
    assert!(is_package_name("psr/log"));
    assert!(is_package_name("monolog/monolog"));

    assert!(!is_package_name("php"));
    assert!(!is_package_name("ext-json"));
    assert!(!is_package_name("lib-icu"));

    assert!(is_platform_requirement("php"));
    assert!(is_platform_requirement("ext-json"));
    assert!(is_platform_requirement("lib-icu"));
    assert!(!is_platform_requirement("psr/log"));
    assert!(!is_platform_requirement("psr/log-implementation"));
}

#[test]
fn missing_require_section_is_rejected() {
    let error = manifest(&json(r#"{"name":"acme/app"}"#)).unwrap_err().message();

    assert!(error.contains("require must be an object"));
}

#[test]
fn package_path_parts_splits_vendor_and_package() {
    let (vendor, package) = package_path_parts("monolog/monolog").unwrap();

    assert_eq!(vendor, "monolog");
    assert_eq!(package, "monolog");
    assert!(package_path_parts("./monolog").is_err());
    assert!(package_path_parts("monolog/..").is_err());
}
