use webr_bundle::js::{build_full_install_command, write_javascript};
use webr_bundle::renv::{Package, RenvLock};

#[test]
fn test_build_full_install_command() {
    let packages = vec![
        Package::new("test", "0.0.1", ""),
        Package::new("test2", "0.0.1", ""),
    ];
    let command = build_full_install_command(&packages);
    assert_eq!(
        command,
        "export default async function installPackages(webR) {\nawait webR.evalRVoid(`webr::install(c(\"test\", \"test2\"), repos=\"${window.location.href}/repo/\")`);\n}"
    );
}

#[test]
fn test_install_command_empty_set() {
    let packages: Vec<Package> = Vec::new();
    let command = build_full_install_command(&packages);
    assert_eq!(
        command,
        "export default async function installPackages(webR) {\nawait webR.evalRVoid(`webr::install(c(), repos=\"${window.location.href}/repo/\")`);\n}"
    );
}

#[test]
fn test_install_command_single_package() {
    let packages = vec![Package::new("only", "1.2.3", "h")];
    let command = build_full_install_command(&packages);
    assert!(command.contains("webr::install(c(\"only\"),"));
}

#[test]
fn test_install_command_lists_packages_in_name_order() {
    let mut lock = RenvLock::new();
    lock.insert(Package::new("zoo", "1.0", ""));
    lock.insert(Package::new("abc", "1.0", ""));
    let files = write_javascript(&lock, "", "");
    assert!(files[2].contents.contains("c(\"abc\", \"zoo\")"));
}

#[test]
fn test_write_javascript_plans_three_files() {
    let mut lock = RenvLock::new();
    lock.insert(Package::new("pkg", "1.0", ""));
    let files = write_javascript(&lock, "shiny source", "worker source");
    assert_eq!(files.len(), 3);
    assert_eq!(files[0].name, "shiny.js");
    assert_eq!(files[0].contents, "shiny source");
    assert_eq!(files[1].name, "httpuv-serviceworker.js");
    assert_eq!(files[1].contents, "worker source");
    assert_eq!(files[2].name, "install_packages.js");
    assert!(files[2].contents.contains("\"pkg\""));
}
