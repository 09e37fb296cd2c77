use concerto::composer::RequiredPackage;
use concerto::installer::production_package_names;
use concerto::resolver::ResolvedPackageEntry;
use concerto::version_set::{DiscreteVersionSet, PubGrubVersion};

fn release(version: &str) -> PubGrubVersion {
    PubGrubVersion::Release(version.to_string())
}

#[test]
fn complement_twice_gives_back_the_set() {
    let set = DiscreteVersionSet::only(vec![release("2.0.0"), release("1.0.0")]);

    let twice = set.complement().complement();

    assert_eq!(twice, set);
    assert!(twice.contains(&release("1.0.0")));
    assert!(!twice.contains(&release("3.0.0")));
}

#[test]
fn sets_keep_versions_sorted_and_once() {
    let set = DiscreteVersionSet::only(vec![release("2.0.0"), release("1.0.0"), release("2.0.0")]);

    assert_eq!(set, DiscreteVersionSet::Only(vec![release("1.0.0"), release("2.0.0")]));
    assert_eq!(DiscreteVersionSet::without(Vec::new()), DiscreteVersionSet::Any);
}

#[test]
fn intersection_keeps_common_versions() {
    let left = DiscreteVersionSet::only(vec![release("1.0.0"), release("2.0.0")]);
    let right = DiscreteVersionSet::without(vec![release("1.0.0")]);

    let both = left.intersection(&right);

    assert!(both.contains(&release("2.0.0")));
    assert!(!both.contains(&release("1.0.0")));
    assert!(DiscreteVersionSet::Any.intersection(&left) == left);
    assert!(!DiscreteVersionSet::empty().contains(&PubGrubVersion::Absent));
    assert!(DiscreteVersionSet::singleton(PubGrubVersion::Root).contains(&PubGrubVersion::Root));
}

fn resolved(requires: &[&str], provides: &[&str]) -> ResolvedPackageEntry {
    let required = |names: &[&str]| {
        names
            .iter()
            .map(|name| RequiredPackage { name: name.to_string(), constraint: "*".to_string() })
            .collect::<Vec<_>>()
    };
    ResolvedPackageEntry {
        version: "1.0.0".to_string(),
        dist_url: "https://example.com/a.zip".to_string(),
        dist_shasum: None,
        constraints: Vec::new(),
        package_requires: required(requires),
        platform_requires: Vec::new(),
        provides: required(provides),
        replaces: Vec::new(),
    }
}

#[test]
fn production_names_follow_requirements_and_capabilities_once() {
    let packages = vec![
        ("acme/app".to_string(), resolved(&["acme/lib", "psr/log-implementation"], &[])),
        ("acme/lib".to_string(), resolved(&["acme/app"], &[])),
        ("acme/logger".to_string(), resolved(&[], &["psr/log-implementation"])),
        ("acme/dev".to_string(), resolved(&[], &[])),
    ];
    let roots = vec![RequiredPackage { name: "acme/app".to_string(), constraint: "^1.0".to_string() }];

    let mut names = production_package_names(&roots, &packages);
    names.sort();

    assert_eq!(names, vec!["acme/app", "acme/lib", "acme/logger"]);
}
