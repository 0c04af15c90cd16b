use webr_bundle::download::{
    get_package_url, get_packages_rds_url, download_dir_rel, package_file_name,
    partition_outcomes, status_of_http, DownloadGate, DownloadOutcome, Status,
};
use webr_bundle::renv::Package;

#[test]
fn test_package_url_is_deterministic() {
    let p = Package::new("cowsay", "1.0", "");
    assert_eq!(
        get_package_url(&p),
        "https://repo.r-wasm.org/bin/emscripten/contrib/4.3/cowsay_1.0.tgz"
    );
}

#[test]
fn test_packages_rds_url_and_local_paths() {
    assert_eq!(
        get_packages_rds_url(),
        "https://repo.r-wasm.org/bin/emscripten/contrib/4.3/PACKAGES.rds"
    );
    assert_eq!(download_dir_rel(), "repo/bin/emscripten/contrib/4.3");
    let p = Package::new("dplyr", "1.1.4", "");
    assert_eq!(package_file_name(&p), "dplyr_1.1.4.tgz");
}

#[test]
fn test_status_of_http() {
    assert_eq!(status_of_http(200), Status::Done);
    assert_eq!(status_of_http(404), Status::Failed);
    assert_eq!(status_of_http(500), Status::Failed);
}

#[test]
fn test_concurrency_bound_refuses_past_capacity() {
    // with capacity 2, a third fetch cannot enter until a slot frees.
    let mut gate = DownloadGate::new(2);
    assert!(gate.try_acquire());
    assert!(gate.try_acquire());
    assert_eq!(gate.in_flight(), 2);
    assert!(!gate.try_acquire());
    gate.release();
    assert!(gate.try_acquire());
    assert_eq!(gate.in_flight(), gate.capacity());
}

#[test]
fn test_concurrency_bound_wide_gate() {
    // with capacity at least the task count, every fetch enters at once.
    let mut gate = DownloadGate::new(5);
    for _ in 0..3 {
        assert!(gate.try_acquire());
    }
    assert_eq!(gate.in_flight(), 3);
    for _ in 0..3 {
        gate.release();
    }
    assert_eq!(gate.in_flight(), 0);
}

#[test]
fn test_partial_failure_partition() {
    // three packages, one fetch failed: two succeed, one fails, and the
    // phase itself still hands both lists back.
    let outcomes = vec![
        DownloadOutcome { package: Package::new("a", "1", ""), status: Status::Done },
        DownloadOutcome { package: Package::new("b", "1", ""), status: status_of_http(404) },
        DownloadOutcome { package: Package::new("c", "1", ""), status: Status::Done },
    ];
    let (succeeded, failed) = partition_outcomes(&outcomes);
    assert_eq!(succeeded.len(), 2);
    assert_eq!(failed.len(), 1);
    assert_eq!(succeeded[0].get_package().0, "a");
    assert_eq!(succeeded[1].get_package().0, "c");
    assert_eq!(failed[0].get_package().0, "b");
}

#[test]
fn test_partition_sorted_by_name_for_sorted_outcomes() {
    // the resolved set iterates ascending by name, so the reported
    // partition comes out ascending by name too.
    let outcomes = vec![
        DownloadOutcome { package: Package::new("a", "1", ""), status: Status::Done },
        DownloadOutcome { package: Package::new("b", "1", ""), status: Status::Failed },
        DownloadOutcome { package: Package::new("c", "1", ""), status: Status::Done },
        DownloadOutcome { package: Package::new("d", "1", ""), status: Status::Failed },
    ];
    let (succeeded, failed) = partition_outcomes(&outcomes);
    let s: Vec<&str> = succeeded.iter().map(|p| p.get_package().0).collect();
    let f: Vec<&str> = failed.iter().map(|p| p.get_package().0).collect();
    assert_eq!(s, vec!["a", "c"]);
    assert_eq!(f, vec!["b", "d"]);
}

#[test]
fn test_partition_keeps_outcome_order() {
    let outcomes = vec![
        DownloadOutcome { package: Package::new("z", "1", ""), status: Status::Failed },
        DownloadOutcome { package: Package::new("a", "1", ""), status: Status::Failed },
    ];
    let (succeeded, failed) = partition_outcomes(&outcomes);
    assert!(succeeded.is_empty());
    assert_eq!(failed[0].get_package().0, "z");
    assert_eq!(failed[1].get_package().0, "a");
}
