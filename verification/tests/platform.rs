use concerto::composer::RequiredPackage;
use concerto::platform::{
    cached_platform, extension_version, insert_version, needs_extension_metadata, parse_extensions,
    parse_platform, store_cached_platform, validate, Platform, PlatformCache, PlatformCacheKey,
    PlatformCacheSlot,
};

fn required_package(name: &str, constraint: &str) -> RequiredPackage {
    RequiredPackage { name: name.to_string(), constraint: constraint.to_string() }
}

fn platform(php_version: &str, extensions: &[&str]) -> Platform {
    Platform {
        php_version: php_version.to_string(),
        extensions: extensions.iter().map(|extension| extension.to_string()).collect(),
        extension_versions: Vec::new(),
    }
}

#[test]
fn tests_accepts_matching_php_requirement() {
    let requirements = vec![required_package("php", ">=8.1")];
    let platform = platform("8.3.0", &[]);

    let result = validate(&requirements, &platform, "monolog/monolog");

    assert!(result.is_ok());
}

#[test]
fn tests_rejects_unmet_php_requirement() {
    let requirements = vec![required_package("php", ">=8.4")];
    let platform = platform("8.3.0", &[]);

    let error = validate(&requirements, &platform, "symfony/console")
         .unwrap_err().message();

    assert!(error.contains("symfony/console"));
    assert!(error.contains("php"));
    assert!(error.contains(">=8.4"));
    assert!(error.contains("8.3.0"));
}

#[test]
fn tests_accepts_installed_extension_requirement() {
    let requirements = vec![required_package("ext-json", "*")];
    let platform = platform("8.3.0", &["json"]);

    let result = validate(&requirements, &platform, "symfony/console");

    assert!(result.is_ok());
}

#[test]
fn tests_rejects_missing_extension_requirement() {
    let requirements = vec![required_package("ext-intl", "*")];
    let platform = platform("8.3.0", &["json"]);

    let error = validate(&requirements, &platform, "symfony/console")
         .unwrap_err().message();

    assert!(error.contains("symfony/console"));
    assert!(error.contains("ext-intl"));
    assert!(error.contains("*"));
    assert!(error.contains("missing"));
}

#[test]
fn tests_rejects_library_requirement_as_unsupported() {
    let requirements = vec![required_package("lib-icu", ">=70")];
    let platform = platform("8.3.0", &[]);

    let error = validate(&requirements, &platform, "symfony/intl")
         .unwrap_err().message();

    assert!(error.contains("symfony/intl"));
    assert!(error.contains("lib-icu"));
    assert!(error.contains(">=70"));
    assert!(error.contains("unsupported"));
}

#[test]
fn parses_platform_from_php_output() {
    let platform = parse_platform(
        r#"
8.3.1
Core=8.3.1
json=8.3.1
PDO
"#
        .trim_start(),
    )
    .unwrap();

    assert_eq!(platform.php_version, "8.3.1");
    assert_eq!(
        platform.extensions,
        vec!["core".to_string(), "json".to_string(), "pdo".to_string()]
    );
    assert_eq!(extension_version(&platform.extension_versions, "json").unwrap(), "8.3.1");
}

#[test]
fn accepts_matching_extension_version_requirement() {
    let requirements = vec![required_package("ext-json", ">=1.7")];
    let mut platform = platform("8.3.0", &["json"]);
    insert_version(&mut platform.extension_versions, "json".to_string(), "1.7.0".to_string());

    let result = validate(&requirements, &platform, "symfony/console");

    assert!(result.is_ok());
}

#[test]
fn rejects_unmet_extension_version_requirement() {
    let requirements = vec![required_package("ext-json", ">=2.0")];
    let mut platform = platform("8.3.0", &["json"]);
    insert_version(&mut platform.extension_versions, "json".to_string(), "1.7.0".to_string());

    let error = validate(&requirements, &platform, "symfony/console")
         .unwrap_err().message();

    assert!(error.contains("ext-json"));
    assert!(error.contains(">=2.0"));
    assert!(error.contains("1.7.0"));
}

#[test]
fn rejects_extension_version_requirement_when_version_is_unknown() {
    let requirements = vec![required_package("ext-json", ">=1.0")];
    let platform = platform("8.3.0", &["json"]);

    let error = validate(&requirements, &platform, "symfony/console")
         .unwrap_err().message();

    assert!(error.contains("ext-json"));
    assert!(error.contains("version unknown"));
}

#[test]
fn tests_accepts_extension_requirement_case_insensitively() {
    let requirements = vec![required_package("Ext-JSON", "*")];
    let platform = platform("8.3.0", &["json"]);

    let result = validate(&requirements, &platform, "symfony/console");

    assert!(result.is_ok());
}

#[test]
fn tests_accepts_platform_requirement_name_case_insensitively() {
    let requirements = vec![required_package("PHP", ">=8.1")];
    let platform = platform("8.3.0", &[]);

    let result = validate(&requirements, &platform, "symfony/console");

    assert!(result.is_ok());
}

#[test]
fn detects_when_extension_metadata_is_needed() {
    assert!(!needs_extension_metadata(&vec![required_package(
        "php", ">=8.1"
    )]));
    assert!(needs_extension_metadata(&vec![required_package(
        "ext-json", "*"
    )]));
    assert!(needs_extension_metadata(&vec![required_package(
        "Ext-JSON", "*"
    )]));
}

#[test]
fn parses_php_version_only_output() {
    let platform = parse_platform("8.3.1\n").unwrap();

    assert_eq!(platform.php_version, "8.3.1");
    assert!(platform.extensions.is_empty());
    assert!(platform.extension_versions.is_empty());
}


#[test]
fn platform_accepts_matching_php_requirement() {
    let requirements = vec![required_package("php", ">=8.1")];
    let platform = platform("8.3.0", &[]);

    let result = validate(&requirements, &platform, "monolog/monolog");

    assert!(result.is_ok());
}

#[test]
fn platform_rejects_unmet_php_requirement() {
    let requirements = vec![required_package("php", ">=8.4")];
    let platform = platform("8.3.0", &[]);

    let error = validate(&requirements, &platform, "symfony/console").unwrap_err().message();

    assert!(error.contains("symfony/console"));
    assert!(error.contains("php"));
    assert!(error.contains(">=8.4"));
    assert!(error.contains("8.3.0"));
}

#[test]
fn platform_accepts_installed_extension_requirement() {
    let requirements = vec![required_package("ext-json", "*")];
    let platform = platform("8.3.0", &["json"]);

    let result = validate(&requirements, &platform, "symfony/console");

    assert!(result.is_ok());
}

#[test]
fn platform_rejects_missing_extension_requirement() {
    let requirements = vec![required_package("ext-intl", "*")];
    let platform = platform("8.3.0", &["json"]);

    let error = validate(&requirements, &platform, "symfony/console").unwrap_err().message();

    assert!(error.contains("symfony/console"));
    assert!(error.contains("ext-intl"));
    assert!(error.contains("*"));
    assert!(error.contains("missing"));
}

#[test]
fn platform_rejects_library_requirement_as_unsupported() {
    let requirements = vec![required_package("lib-icu", ">=70")];
    let platform = platform("8.3.0", &[]);

    let error = validate(&requirements, &platform, "symfony/intl").unwrap_err().message();

    assert!(error.contains("symfony/intl"));
    assert!(error.contains("lib-icu"));
    assert!(error.contains(">=70"));
    assert!(error.contains("unsupported"));
}

#[test]
fn parses_php_extensions() {
    let extensions = parse_extensions(
        r#"
            [PHP Modules]
            Core
            json
            PDO

            [Zend Modules]
            Zend OPcache
            "#,
    );

    assert_eq!(
        extensions,
        vec![
            "core".to_string(),
            "json".to_string(),
            "pdo".to_string(),
            "zend opcache".to_string(),
        ]
    );
}

#[test]
fn platform_accepts_extension_requirement_case_insensitively() {
    let requirements = vec![required_package("Ext-JSON", "*")];
    let platform = platform("8.3.0", &["json"]);

    let result = validate(&requirements, &platform, "symfony/console");

    assert!(result.is_ok());
}

#[test]
fn platform_accepts_platform_requirement_name_case_insensitively() {
    let requirements = vec![required_package("PHP", ">=8.1")];
    let platform = platform("8.3.0", &[]);

    let result = validate(&requirements, &platform, "symfony/console");

    assert!(result.is_ok());
}


#[test]
fn platform_cache_answers_only_under_its_key_and_slot() {
    let key = |len: u64| PlatformCacheKey { path: "/usr/bin/php".to_string(), len, modified_secs: 1, modified_nanos: 2 };
    let detected = || Platform {
        php_version: "8.3.0".to_string(),
        extensions: vec!["json".to_string()],
        extension_versions: Vec::new(),
    };
    let mut cache = PlatformCache { php: None, full: None };
    store_cached_platform(&mut cache, PlatformCacheSlot::Full, key(10), detected());

    assert!(cache.php.is_none());
    let found = cached_platform(cache, PlatformCacheSlot::Full, &key(10)).unwrap();
    assert_eq!(found.php_version, "8.3.0");

    let mut cache = PlatformCache { php: None, full: None };
    store_cached_platform(&mut cache, PlatformCacheSlot::Full, key(10), detected());
    assert!(cached_platform(cache, PlatformCacheSlot::Full, &key(11)).is_none());

    let mut cache = PlatformCache { php: None, full: None };
    store_cached_platform(&mut cache, PlatformCacheSlot::Full, key(10), detected());
    assert!(cached_platform(cache, PlatformCacheSlot::Php, &key(10)).is_none());
}
