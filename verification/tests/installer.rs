use concerto::composer::{ComposerRepository, RequiredPackage};
use concerto::installer::{
    build_lockfile, validate_locked_platform_requirements, validate_resolved_platform_requirements,
};
use concerto::lockfile::{matches_root_manifest, validate_lockfile, LockedPackage, Lockfile};
use concerto::platform::Platform;
use concerto::resolver::ResolvedPackageEntry;

#[test]
fn rejects_unmet_locked_platform_requirements() {
    let packages = vec![LockedPackage {
        name: "symfony/console".to_string(),
        version: "8.0.0".to_string(),
        dist_url: "https://example.com/symfony-console.zip".to_string(),
        dist_integrity: Some("blake3:test".to_string()),
        dist_shasum: None,
        package_requires: Vec::new(),
        platform_requires: vec![required_package("php", ">=8.4")],
        dev: false,
    }];
    let platform = platform("8.3.0", &[]);

    let error = validate_locked_platform_requirements(&packages, &platform).unwrap_err().message();

    assert!(error.contains("symfony/console"));
    assert!(error.contains("php"));
    assert!(error.contains(">=8.4"));
    assert!(error.contains("8.3.0"));
}

#[test]
fn rejects_unmet_resolved_platform_requirements() {
    let packages = vec![(
        "symfony/console".to_string(),
        ResolvedPackageEntry {
            version: "8.0.0".to_string(),
            dist_url: "https://example.com/symfony-console.zip".to_string(),
            dist_shasum: None,
            constraints: vec!["^8.0".to_string()],
            package_requires: Vec::new(),
            platform_requires: vec![required_package("ext-intl", "*")],
            provides: Vec::new(),
            replaces: Vec::new(),
        },
    )];
    let platform = platform("8.3.0", &["json"]);

    let error =
        validate_resolved_platform_requirements(&packages, &platform).unwrap_err().message();

    assert!(error.contains("symfony/console"));
    assert!(error.contains("ext-intl"));
    assert!(error.contains("*"));
    assert!(error.contains("missing"));
}

#[test]
fn lockfile_includes_root_repositories_in_manifest_hash() {
    let repositories = vec![ComposerRepository { url: "https://repo.example.com".to_string() }];
    let lockfile = build_lockfile(
        vec![required_package("psr/log", "^3.0")],
        repositories.clone(),
        &vec![required_package("psr/log", "^3.0")],
        &Vec::new(),
        &Vec::new(),
    )
    .unwrap();

    assert_eq!(lockfile.root_repositories, repositories);
    assert!(matches_root_manifest(
        &lockfile,
        &vec![required_package("psr/log", "^3.0")],
        &vec![ComposerRepository { url: "https://repo.example.com".to_string() }]
    ));
    assert!(!matches_root_manifest(
        &lockfile,
        &vec![required_package("psr/log", "^3.0")],
        &vec![ComposerRepository { url: "https://repo.changed.example.com".to_string() }]
    ));
}

#[test]
fn lockfile_marks_packages_outside_production_graph_as_dev() {
    let resolved_packages = vec![
        ("psr/log".to_string(), resolved_package(&[])),
        ("monolog/monolog".to_string(), resolved_package(&[required_package("psr/log", "^3.0")])),
    ];

    let lockfile = build_lockfile(
        vec![required_package("psr/log", "^3.0"), required_package("monolog/monolog", "^3.0")],
        Vec::new(),
        &vec![required_package("psr/log", "^3.0")],
        &resolved_packages,
        &integrities(&["psr/log", "monolog/monolog"]),
    )
    .unwrap();

    assert!(!locked_package(&lockfile, "psr/log").dev);
    assert!(locked_package(&lockfile, "monolog/monolog").dev);
}

#[test]
fn lockfile_marks_production_provider_as_non_dev() {
    let mut provider = resolved_package(&[]);
    provider.provides = vec![required_package("psr/log-implementation", "1.0.0")];
    let resolved_packages = vec![("acme/log".to_string(), provider)];

    let lockfile = build_lockfile(
        vec![required_package("psr/log-implementation", "^1.0")],
        Vec::new(),
        &vec![required_package("psr/log-implementation", "^1.0")],
        &resolved_packages,
        &integrities(&["acme/log"]),
    )
    .unwrap();

    assert!(!locked_package(&lockfile, "acme/log").dev);
}

#[test]
fn lockfile_sorts_packages_and_requirements_by_name() {
    let resolved_packages = vec![
        ("zeta/pkg".to_string(), resolved_package(&[])),
        ("alpha/pkg".to_string(), resolved_package(&[])),
    ];

    let lockfile = build_lockfile(
        vec![required_package("zeta/pkg", "^1.0"), required_package("alpha/pkg", "^1.0")],
        Vec::new(),
        &vec![required_package("zeta/pkg", "^1.0"), required_package("alpha/pkg", "^1.0")],
        &resolved_packages,
        &integrities(&["zeta/pkg", "alpha/pkg"]),
    )
    .unwrap();

    let names: Vec<&str> = lockfile.packages.iter().map(|p| p.name.as_str()).collect();
    assert_eq!(names, vec!["alpha/pkg", "zeta/pkg"]);
    let roots: Vec<&str> = lockfile.root_requirements.iter().map(|r| r.name.as_str()).collect();
    assert_eq!(roots, vec!["alpha/pkg", "zeta/pkg"]);
    assert_eq!(
        locked_package(&lockfile, "alpha/pkg").dist_integrity,
        Some(format!("blake3:{}", blake3::hash(b"alpha/pkg").to_hex()))
    );
}

#[test]
fn built_lockfile_passes_validation() {
    let resolved_packages = vec![("psr/log".to_string(), resolved_package(&[]))];
    let lockfile = build_lockfile(
        vec![required_package("psr/log", "^3.0")],
        vec![ComposerRepository { url: "https://repo.example.com".to_string() }],
        &vec![required_package("psr/log", "^3.0")],
        &resolved_packages,
        &integrities(&["psr/log"]),
    )
    .unwrap();

    assert!(validate_lockfile(lockfile).is_ok());
}

#[test]
fn lockfile_requires_archive_integrity() {
    let resolved_packages = vec![("psr/log".to_string(), resolved_package(&[]))];

    let error = build_lockfile(
        vec![required_package("psr/log", "^3.0")],
        Vec::new(),
        &vec![required_package("psr/log", "^3.0")],
        &resolved_packages,
        &Vec::new(),
    )
    .unwrap_err()
    .message();

    assert!(error.contains("Missing archive integrity for psr/log"));
}

fn locked_package<'a>(lockfile: &'a Lockfile, name: &str) -> &'a LockedPackage {
    lockfile.packages.iter().find(|package| package.name == name).unwrap()
}

fn required_package(name: &str, constraint: &str) -> RequiredPackage {
    RequiredPackage { name: name.to_string(), constraint: constraint.to_string() }
}

fn resolved_package(package_requires: &[RequiredPackage]) -> ResolvedPackageEntry {
    ResolvedPackageEntry {
        version: "1.0.0".to_string(),
        dist_url: "https://example.com/package.zip".to_string(),
        dist_shasum: None,
        constraints: Vec::new(),
        package_requires: package_requires.to_vec(),
        platform_requires: Vec::new(),
        provides: Vec::new(),
        replaces: Vec::new(),
    }
}

fn integrities(packages: &[&str]) -> Vec<(String, String)> {
    packages
        .iter()
        .map(|package| {
            (package.to_string(), format!("blake3:{}", blake3::hash(package.as_bytes()).to_hex()))
        })
        .collect()
}

fn platform(php_version: &str, extensions: &[&str]) -> Platform {
    Platform {
        php_version: php_version.to_string(),
        extensions: extensions.iter().map(|extension| extension.to_string()).collect(),
        extension_versions: Vec::new(),
    }
}

#[test]
fn lockfile_package_order_ignores_resolution_order() {
    let forward = vec![
        ("psr/log".to_string(), resolved_package(&[])),
        ("monolog/monolog".to_string(), resolved_package(&[required_package("psr/log", "^3.0")])),
    ];
    let backward = vec![
        ("monolog/monolog".to_string(), resolved_package(&[required_package("psr/log", "^3.0")])),
        ("psr/log".to_string(), resolved_package(&[])),
    ];
    let build = |resolved: &Vec<(String, ResolvedPackageEntry)>| {
        build_lockfile(
            vec![required_package("monolog/monolog", "^3.0")],
            Vec::new(),
            &vec![required_package("monolog/monolog", "^3.0")],
            resolved,
            &integrities(&["psr/log", "monolog/monolog"]),
        )
        .unwrap()
    };

    let first = build(&forward);
    let second = build(&backward);
    let names = |lockfile: &Lockfile| lockfile.packages.iter().map(|p| p.name.clone()).collect::<Vec<_>>();

    assert_eq!(names(&first), names(&second));
    assert_eq!(names(&first), vec!["monolog/monolog", "psr/log"]);
    assert_eq!(first.root_manifest_hash, second.root_manifest_hash);
}

#[test]
fn lockfile_records_the_same_for_reordered_resolution() {
    let log = ("psr/log".to_string(), resolved_package(&[]));
    let monolog =
        ("monolog/monolog".to_string(), resolved_package(&[required_package("psr/log", "^3.0")]));
    let tool = ("acme/tool".to_string(), resolved_package(&[]));
    let roots = vec![
        required_package("psr/log", "^3.0"),
        required_package("monolog/monolog", "^3.0"),
        required_package("psr/log", ">=3.0.1"),
        required_package("acme/tool", "^1.0"),
    ];
    let build = |resolved: Vec<(String, ResolvedPackageEntry)>| {
        build_lockfile(
            roots.clone(),
            Vec::new(),
            &vec![required_package("monolog/monolog", "^3.0")],
            &resolved,
            &integrities(&["psr/log", "monolog/monolog", "acme/tool"]),
        )
        .unwrap()
    };

    let first = build(vec![log.clone(), monolog.clone(), tool.clone()]);
    let second = build(vec![tool, monolog, log]);

    let pairs = |lockfile: &Lockfile| {
        lockfile
            .root_requirements
            .iter()
            .map(|requirement| (requirement.name.clone(), requirement.constraint.clone()))
            .collect::<Vec<_>>()
    };
    assert_eq!(pairs(&first), pairs(&second));
    assert_eq!(
        pairs(&first),
        vec![
            ("acme/tool".to_string(), "^1.0".to_string()),
            ("monolog/monolog".to_string(), "^3.0".to_string()),
            ("psr/log".to_string(), "^3.0".to_string()),
            ("psr/log".to_string(), ">=3.0.1".to_string()),
        ]
    );
    assert_eq!(first.lockfile_version, second.lockfile_version);
    assert_eq!(first.root_manifest_hash, second.root_manifest_hash);
    assert_eq!(first.packages.len(), second.packages.len());
    for (left, right) in first.packages.iter().zip(second.packages.iter()) {
        assert_eq!(left.name, right.name);
        assert_eq!(left.version, right.version);
        assert_eq!(left.dist_url, right.dist_url);
        assert_eq!(left.dist_integrity, right.dist_integrity);
        assert_eq!(left.dist_shasum, right.dist_shasum);
        assert_eq!(left.dev, right.dev);
        assert_eq!(left.package_requires.len(), right.package_requires.len());
    }
    assert!(locked_package(&first, "acme/tool").dev);
    assert!(!locked_package(&first, "psr/log").dev);
}
