use webr_bundle::renv::{Package, RenvLock};
use webr_bundle::repo::VesionMatcher;

fn names_and_versions(lock: &RenvLock) -> Vec<(String, String)> {
    lock.packages()
        .iter()
        .map(|p| {
            let (name, version) = p.get_package();
            (name.to_string(), version.to_string())
        })
        .collect()
}

#[test]
fn test_replace_and_drop() {
    // lockfile {A: v1, B: v1}, index {A: v2}: B is dropped with a
    // diagnostic, A takes the index's version.
    let mut lock = RenvLock::new();
    lock.insert(Package::new("A", "v1", "h1"));
    lock.insert(Package::new("B", "v1", "h2"));
    let index = vec![Package::new("A", "v2", "")];
    let matcher = VesionMatcher::new(index);
    let diags = matcher.sync_renv(&mut lock);
    assert_eq!(names_and_versions(&lock), vec![("A".to_string(), "v2".to_string())]);
    assert_eq!(diags, vec!["B (v1)".to_string()]);
}

#[test]
fn test_resolver_idempotence() {
    let mut index = Vec::new();
    let mut a = Package::new("A", "2.0", "");
    a.add_requirement("B");
    index.push(a);
    let mut b = Package::new("B", "1.5", "");
    b.add_requirement("C");
    index.push(b);
    index.push(Package::new("C", "0.9", ""));

    let mut lock = RenvLock::new();
    lock.insert(Package::new("A", "1.0", "old"));
    lock.insert(Package::new("Gone", "1.0", "old"));

    let matcher = VesionMatcher::new(index);
    matcher.sync_renv(&mut lock);
    let once = names_and_versions(&lock);
    let diags_again = matcher.sync_renv(&mut lock);
    let twice = names_and_versions(&lock);
    assert_eq!(once, twice);
    assert!(diags_again.is_empty());
}

#[test]
fn test_resolver_soundness_and_closure() {
    // every surviving package carries the index's version, and every
    // resolvable dependency of a survivor is itself present.
    let mut index = Vec::new();
    let mut a = Package::new("A", "2.0", "");
    a.add_requirement("B");
    a.add_requirement("Missing");
    index.push(a);
    index.push(Package::new("B", "1.5", ""));

    let mut lock = RenvLock::new();
    lock.insert(Package::new("A", "1.0", "old"));

    let matcher = VesionMatcher::new(index);
    matcher.sync_renv(&mut lock);
    assert!(lock.contains("A"));
    assert!(lock.contains("B"));
    assert!(!lock.contains("Missing"));
    assert_eq!(
        names_and_versions(&lock),
        vec![("A".to_string(), "2.0".to_string()), ("B".to_string(), "1.5".to_string())]
    );
}

#[test]
fn test_resolver_handles_dependency_cycles() {
    // a cyclic availability graph still terminates and closes over the
    // cycle.
    let mut index = Vec::new();
    let mut a = Package::new("A", "1.0", "");
    a.add_requirement("B");
    index.push(a);
    let mut b = Package::new("B", "1.0", "");
    b.add_requirement("A");
    index.push(b);

    let mut lock = RenvLock::new();
    lock.insert(Package::new("A", "0.1", ""));

    let matcher = VesionMatcher::new(index);
    matcher.sync_renv(&mut lock);
    assert!(lock.contains("A"));
    assert!(lock.contains("B"));
    assert_eq!(lock.len(), 2);
}

#[test]
fn test_empty_index_drops_everything() {
    let mut lock = RenvLock::new();
    lock.insert(Package::new("A", "1.0", ""));
    lock.insert(Package::new("B", "2.0", ""));
    let matcher = VesionMatcher::new(Vec::new());
    let diags = matcher.sync_renv(&mut lock);
    assert_eq!(lock.len(), 0);
    assert_eq!(diags, vec!["A (1.0)".to_string(), "B (2.0)".to_string()]);
}

#[test]
fn test_package_requirement_deduplication() {
    let mut p = Package::new("pkg", "1.0", "hash");
    p.add_requirement("R");
    p.add_requirement("R.utils");
    p.add_requirement("R");
    let reqs: Vec<String> = p.get_requirements().clone();
    assert_eq!(reqs, vec!["R".to_string(), "R.utils".to_string()]);
    let (name, version) = p.get_package();
    assert_eq!(name, "pkg");
    assert_eq!(version, "1.0");
}

#[test]
fn test_package_set_iterates_in_name_order() {
    // canonical iteration: ascending by name, whatever the insertion
    // order was.
    let mut lock = RenvLock::new();
    lock.insert(Package::new("B", "1", ""));
    lock.insert(Package::new("A", "1", ""));
    lock.insert(Package::new("C", "1", ""));
    let names: Vec<String> = lock
        .packages()
        .iter()
        .map(|p| p.get_package().0.to_string())
        .collect();
    assert_eq!(names, vec!["A".to_string(), "B".to_string(), "C".to_string()]);
}

#[test]
fn test_requirements_iterate_in_name_order() {
    let mut p = Package::new("pkg", "1.0", "");
    p.add_requirement("z");
    p.add_requirement("a");
    p.add_requirement("m");
    let reqs: Vec<String> = p.get_requirements().clone();
    assert_eq!(reqs, vec!["a".to_string(), "m".to_string(), "z".to_string()]);
}

#[test]
fn test_closure_inserts_in_name_order() {
    // transitive dependencies pulled in by the closure pass land at
    // their ordered places, not at the end.
    let mut index = Vec::new();
    let mut z = Package::new("Z", "1.0", "");
    z.add_requirement("A");
    index.push(z);
    index.push(Package::new("A", "2.0", ""));

    let mut lock = RenvLock::new();
    lock.insert(Package::new("Z", "0.1", ""));

    let matcher = VesionMatcher::new(index);
    matcher.sync_renv(&mut lock);
    let names: Vec<String> = lock
        .packages()
        .iter()
        .map(|p| p.get_package().0.to_string())
        .collect();
    assert_eq!(names, vec!["A".to_string(), "Z".to_string()]);
}

#[test]
fn test_renv_lock_insert_replaces_by_name() {
    let mut lock = RenvLock::new();
    lock.insert(Package::new("A", "1.0", ""));
    lock.insert(Package::new("A", "2.0", ""));
    assert_eq!(lock.len(), 1);
    assert!(lock.contains("A"));
    assert!(!lock.contains("B"));
    lock.remove("A");
    assert_eq!(lock.len(), 0);
}
