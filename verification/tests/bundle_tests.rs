use webr_bundle::bundle::{bundle_plan, rel_name_of, ArchiveItem, WalkEntry, WalkKind};
use webr_bundle::errors::Error;

fn entry(path: &str, kind: WalkKind) -> WalkEntry {
    WalkEntry { path: path.to_string(), kind }
}

#[test]
fn test_archive_plan_takes_regular_files_only() {
    // the walker has already withheld ignored paths (.git/x,
    // node_modules/y, .webrignore matches); of what it yields, only
    // regular files are archived, under root-relative names.
    let entries = vec![
        entry("app", WalkKind::Directory),
        entry("app/a.txt", WalkKind::File),
        entry("app/b", WalkKind::Directory),
        entry("app/b/c.txt", WalkKind::File),
        entry("app/broken", WalkKind::Failed),
    ];
    let items: Vec<ArchiveItem> = bundle_plan("app", &entries).unwrap();
    assert_eq!(items.len(), 2);
    assert_eq!(items[0].path, "app/a.txt");
    assert_eq!(items[0].name, "a.txt");
    assert_eq!(items[1].path, "app/b/c.txt");
    assert_eq!(items[1].name, "b/c.txt");
}

#[test]
fn test_archive_plan_rejects_file_outside_root() {
    let entries = vec![entry("elsewhere/x.txt", WalkKind::File)];
    let err = bundle_plan("app", &entries).unwrap_err();
    assert!(matches!(err, Error::PathPrefix(p) if p == "elsewhere/x.txt"));
}

#[test]
fn test_archive_plan_empty_walk() {
    let items = bundle_plan("app", &Vec::new()).unwrap();
    assert!(items.is_empty());
}

#[test]
fn test_rel_name_of_dot_root() {
    assert_eq!(rel_name_of(".", "./app.R").unwrap(), "app.R");
    assert_eq!(rel_name_of("app/", "app/x").unwrap(), "x");
    assert_eq!(rel_name_of("app", "app").unwrap(), "");
    assert!(rel_name_of("app", "application/x").is_none());
}
