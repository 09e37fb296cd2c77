use concerto::composer::{ComposerRepository, RequiredPackage};
use concerto::error::ConcertoError;
use concerto::lockfile::{
    matches_root_manifest, root_manifest_hash, validate_lockfile, LockedPackage, Lockfile,
    LOCKFILE_VERSION,
};

fn text(value: &serde_json::Value, key: &str) -> String {
    value[key].as_str().unwrap().to_string()
}

fn requirements(value: &serde_json::Value) -> Vec<RequiredPackage> {
    value
        .as_array()
        .unwrap()
        .iter()
        .map(|item| RequiredPackage { name: text(item, "name"), constraint: text(item, "constraint") })
        .collect()
}

fn parse(content: &str) -> Result<Lockfile, ConcertoError> {
    let value: serde_json::Value = serde_json::from_str(content).unwrap();
    let lockfile = Lockfile {
        lockfile_version: value["lockfile_version"].as_u64().unwrap() as u8,
        root_manifest_hash: text(&value, "root_manifest_hash"),
        root_requirements: requirements(&value["root_requirements"]),
        root_repositories: value["root_repositories"]
            .as_array()
            .unwrap()
            .iter()
            .map(|item| ComposerRepository { url: text(item, "url") })
            .collect(),
        packages: value["packages"]
            .as_array()
            .unwrap()
            .iter()
            .map(|item| LockedPackage {
                name: text(item, "name"),
                version: text(item, "version"),
                dist_url: text(item, "dist_url"),
                dist_integrity: item.get("dist_integrity").and_then(|v| v.as_str()).map(str::to_string),
                dist_shasum: item.get("dist_shasum").and_then(|v| v.as_str()).map(str::to_string),
                dev: item.get("dev").and_then(|v| v.as_bool()).unwrap_or(false),
                package_requires: requirements(&item["package_requires"]),
                platform_requires: requirements(&item["platform_requires"]),
            })
            .collect(),
    };
    validate_lockfile(lockfile)
}

fn required_package(name: &str, constraint: &str) -> RequiredPackage {
    RequiredPackage { name: name.to_string(), constraint: constraint.to_string() }
}

fn repository(url: &str) -> ComposerRepository {
    ComposerRepository { url: url.to_string() }
}

#[test]
fn tests_parses_lockfile() {
    let root_requirements = vec![required_package("psr/log", "^3.0")];
    let root_repositories = vec![repository("https://repo.example.com")];
    let root_manifest_hash = root_manifest_hash(&root_requirements, &root_repositories);
    let content = format!(
        r#"
    {{
      "lockfile_version": 2,
      "root_manifest_hash": "{root_manifest_hash}",
      "root_requirements": [
        {{
          "name": "psr/log",
          "constraint": "^3.0"
        }}
      ],
      "root_repositories": [
        {{
          "url": "https://repo.example.com"
        }}
      ],
      "packages": [
        {{
          "name": "psr/log",
          "version": "3.0.2",
          "dist_url": "https://example.com/psr-log.zip",
          "package_requires": [],
          "platform_requires": []
        }}
      ]
    }}
    "#
    );

    let lockfile = parse(&content).unwrap();

    assert_eq!(lockfile.root_manifest_hash, root_manifest_hash);
    assert_eq!(lockfile.root_requirements.len(), 1);
    assert_eq!(lockfile.root_requirements[0].name, "psr/log");
    assert_eq!(lockfile.root_requirements[0].constraint, "^3.0");
    assert_eq!(lockfile.root_repositories, root_repositories);
    assert_eq!(lockfile.packages.len(), 1);
    assert_eq!(lockfile.packages[0].name, "psr/log");
    assert_eq!(lockfile.packages[0].version, "3.0.2");
}

#[test]
fn matches_same_root_manifest() {
    let locked_root_requirements = vec![
        required_package("psr/log", "^3.0"),
        required_package("monolog/monolog", "^3.0"),
    ];
    let locked_root_repositories = vec![repository("https://repo.example.com")];
    let lockfile = Lockfile {
        lockfile_version: LOCKFILE_VERSION,
        root_manifest_hash: root_manifest_hash(&locked_root_requirements, &locked_root_repositories),
        root_requirements: locked_root_requirements,
        root_repositories: locked_root_repositories,
        packages: Vec::new(),
    };

    let root_requirements = vec![
        required_package("monolog/monolog", "^3.0"),
        required_package("psr/log", "^3.0"),
    ];

    assert!(matches_root_manifest(
        &lockfile,
        &root_requirements,
        &vec![repository("https://repo.example.com")]
    ));
}

#[test]
fn rejects_changed_root_manifest_requirements() {
    let locked_root_requirements = vec![required_package("psr/log", "^3.0")];
    let locked_root_repositories = Vec::new();
    let lockfile = Lockfile {
        lockfile_version: LOCKFILE_VERSION,
        root_manifest_hash: root_manifest_hash(&locked_root_requirements, &locked_root_repositories),
        root_requirements: locked_root_requirements,
        root_repositories: locked_root_repositories,
        packages: Vec::new(),
    };

    let root_requirements = vec![required_package("psr/log", "^2.0")];

    assert!(!matches_root_manifest(&lockfile, &root_requirements, &Vec::new()));
}

#[test]
fn rejects_changed_root_manifest_repositories() {
    let root_requirements = vec![required_package("psr/log", "^3.0")];
    let locked_root_repositories = vec![repository("https://repo.example.com")];
    let lockfile = Lockfile {
        lockfile_version: LOCKFILE_VERSION,
        root_manifest_hash: root_manifest_hash(&root_requirements, &locked_root_repositories),
        root_requirements: root_requirements.clone(),
        root_repositories: locked_root_repositories,
        packages: Vec::new(),
    };

    assert!(!matches_root_manifest(
        &lockfile,
        &root_requirements,
        &vec![repository("https://repo.changed.example.com")]
    ));
}

#[test]
fn tests_rejects_unsupported_lockfile_version() {
    let content = r#"
{
  "lockfile_version": 1,
  "root_manifest_hash": "test-hash",
  "root_requirements": [],
  "root_repositories": [],
  "packages": []
}
"#;

    let error = parse(content).unwrap_err().message();

    assert!(error.contains("Unsupported lockfile version: 1"));
}

#[test]
fn rejects_mismatched_root_manifest_hash() {
    let content = r#"
{
  "lockfile_version": 2,
  "root_manifest_hash": "wrong-hash",
  "root_requirements": [],
  "root_repositories": [],
  "packages": []
}
"#;

    let error = parse(content).unwrap_err().message();

    assert!(error.contains("Lockfile root manifest hash does not match root requirements"));
}

#[test]
fn tests_hashes_root_requirements_independently_from_order() {
    let left = vec![
        required_package("psr/log", "^3.0"),
        required_package("monolog/monolog", "^3.0"),
    ];

    let right = vec![
        required_package("monolog/monolog", "^3.0"),
        required_package("psr/log", "^3.0"),
    ];

    assert_eq!(root_manifest_hash(&left, &Vec::new()), root_manifest_hash(&right, &Vec::new()));
}

#[test]
fn tests_hashes_changed_root_requirements_differently() {
    let initial = vec![required_package("psr/log", "^3.0")];
    let changed = vec![required_package("psr/log", "^2.0")];

    assert_ne!(
        root_manifest_hash(&initial, &Vec::new()),
        root_manifest_hash(&changed, &Vec::new())
    );
}

#[test]
fn hashes_repository_order() {
    let requirements = vec![required_package("psr/log", "^3.0")];
    let left = vec![repository("https://first.example.com"), repository("https://second.example.com")];
    let right = vec![repository("https://second.example.com"), repository("https://first.example.com")];

    assert_ne!(root_manifest_hash(&requirements, &left), root_manifest_hash(&requirements, &right));
}

#[test]
fn lockfile_hashes_root_requirements_independently_from_order() {
    let left = vec![
        required_package("psr/log", "^3.0"),
        required_package("monolog/monolog", "^3.0"),
    ];
    let right = vec![
        required_package("monolog/monolog", "^3.0"),
        required_package("psr/log", "^3.0"),
    ];

    assert_eq!(root_manifest_hash(&left, &Vec::new()), root_manifest_hash(&right, &Vec::new()));
}

#[test]
fn lockfile_hashes_changed_root_requirements_differently() {
    let initial = vec![required_package("psr/log", "^3.0")];
    let changed = vec![required_package("psr/log", "^2.0")];

    assert_ne!(
        root_manifest_hash(&initial, &Vec::new()),
        root_manifest_hash(&changed, &Vec::new())
    );
}

#[test]
fn matches_same_root_requirements() {
    let locked = vec![required_package("psr/log", "^3.0"), required_package("monolog/monolog", "^3.0")];
    let lockfile = Lockfile {
        lockfile_version: LOCKFILE_VERSION,
        root_manifest_hash: root_manifest_hash(&locked, &Vec::new()),
        root_requirements: locked,
        root_repositories: Vec::new(),
        packages: Vec::new(),
    };
    let root_requirements =
        vec![required_package("monolog/monolog", "^3.0"), required_package("psr/log", "^3.0")];

    assert!(matches_root_manifest(&lockfile, &root_requirements, &Vec::new()));
}

#[test]
fn rejects_changed_root_requirements() {
    let locked = vec![required_package("psr/log", "^3.0")];
    let lockfile = Lockfile {
        lockfile_version: LOCKFILE_VERSION,
        root_manifest_hash: root_manifest_hash(&locked, &Vec::new()),
        root_requirements: locked,
        root_repositories: Vec::new(),
        packages: Vec::new(),
    };

    assert!(!matches_root_manifest(&lockfile, &vec![required_package("psr/log", "^2.0")], &Vec::new()));
}

#[test]
fn root_manifest_hash_is_lowercase_hex_of_framed_fields() {
    let requirements = vec![required_package("psr/log", "^3.0")];
    let repositories = vec![repository("https://repo.example.com")];
    let mut hasher = blake3::Hasher::new();
    for value in ["requirements", "psr/log", "^3.0", "repositories", "https://repo.example.com"] {
        hasher.update(value.len().to_string().as_bytes());
        hasher.update(b":");
        hasher.update(value.as_bytes());
    }

    assert_eq!(
        root_manifest_hash(&requirements, &repositories),
        hasher.finalize().to_hex().to_string()
    );
}

#[test]
fn validated_lockfile_is_returned_unchanged() {
    let requirements = vec![required_package("psr/log", "^3.0")];
    let lockfile = Lockfile {
        lockfile_version: LOCKFILE_VERSION,
        root_manifest_hash: root_manifest_hash(&requirements, &Vec::new()),
        root_requirements: requirements,
        root_repositories: Vec::new(),
        packages: Vec::new(),
    };
    let expected_hash = lockfile.root_manifest_hash.clone();

    let validated = validate_lockfile(lockfile).unwrap();

    assert_eq!(validated.root_manifest_hash, expected_hash);
    assert_eq!(validated.lockfile_version, 2);
}
