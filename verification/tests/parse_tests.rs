use std::io::Write;

use webr_bundle::errors::Error;
use webr_bundle::repo::{
    available_packages, get_packages_available_url, parse_available_packages, parse_depends,
};

fn gzip(text: &str) -> Vec<u8> {
    let mut enc = flate2::write::GzEncoder::new(Vec::new(), flate2::Compression::default());
    enc.write_all(text.as_bytes()).unwrap();
    enc.finish().unwrap()
}

#[test]
fn test_dependency_field_filtering() {
    // only the runtime name itself and runtime-prefixed names survive.
    let deps = parse_depends(" R (>= 3.5.0), methods, R.utils");
    assert_eq!(deps, vec!["R".to_string(), "R.utils".to_string()]);
}

#[test]
fn test_dependency_field_edge_cases() {
    assert_eq!(parse_depends(""), Vec::<String>::new());
    assert_eq!(parse_depends("methods, stats"), Vec::<String>::new());
    assert_eq!(parse_depends("R, R"), vec!["R".to_string()]);
    assert_eq!(parse_depends("Rcpp"), Vec::<String>::new());
    assert_eq!(parse_depends("R.oo (>= 1.0), R"), vec!["R".to_string(), "R.oo".to_string()]);
}

#[test]
fn test_parse_available_packages_blocks() {
    let raw = "Package: cowsay\nVersion: 1.0\nDepends: R (>= 3.5), methods\nImports: R.utils\n\nPackage: R.utils\nVersion: 2.0\n";
    let packages = parse_available_packages(raw).unwrap();
    assert_eq!(packages.len(), 2);
    // ascending name order: uppercase code points come first
    let (name, version) = packages[0].get_package();
    assert_eq!((name, version), ("R.utils", "2.0"));
    assert!(packages[0].get_requirements().is_empty());
    let (name2, version2) = packages[1].get_package();
    assert_eq!((name2, version2), ("cowsay", "1.0"));
    let reqs: Vec<String> = packages[1].get_requirements().clone();
    assert_eq!(reqs, vec!["R".to_string(), "R.utils".to_string()]);
}

#[test]
fn test_dependency_tokens_come_out_in_name_order() {
    // the dependency set iterates ascending by name whatever the field
    // order was.
    let deps = parse_depends("R.utils, R.oo, R");
    assert_eq!(
        deps,
        vec!["R".to_string(), "R.oo".to_string(), "R.utils".to_string()]
    );
}

#[test]
fn test_index_requirements_iterate_in_name_order() {
    let raw = "Package: a\nVersion: 1\nImports: R.utils\nDepends: R.oo, R";
    let packages = parse_available_packages(raw).unwrap();
    let reqs: Vec<String> = packages[0].get_requirements().clone();
    assert_eq!(
        reqs,
        vec!["R".to_string(), "R.oo".to_string(), "R.utils".to_string()]
    );
}

#[test]
fn test_parse_available_packages_takes_last_tokens() {
    // the name is the first line's last whitespace-delimited token, the
    // version the second line's.
    let raw = "Package: some noise cowsay\nVersion: x 1.0";
    let packages = parse_available_packages(raw).unwrap();
    let (name, version) = packages[0].get_package();
    assert_eq!((name, version), ("cowsay", "1.0"));
}

#[test]
fn test_parse_available_packages_duplicate_name_overwrites() {
    let raw = "Package: a\nVersion: 1\n\nPackage: a\nVersion: 2";
    let packages = parse_available_packages(raw).unwrap();
    assert_eq!(packages.len(), 1);
    let (_, version) = packages[0].get_package();
    assert_eq!(version, "2");
}

#[test]
fn test_parse_available_packages_missing_version_line() {
    let err = parse_available_packages("Package: lonely").unwrap_err();
    assert!(matches!(err, Error::IndexParse));
}

#[test]
fn test_parse_available_packages_empty_input() {
    let err = parse_available_packages("").unwrap_err();
    assert!(matches!(err, Error::IndexParse));
}

#[test]
fn test_parse_available_packages_blank_token_line() {
    let err = parse_available_packages("   \nVersion: 1.0").unwrap_err();
    assert!(matches!(err, Error::IndexParse));
}

#[test]
fn test_available_packages_decodes_gzip() {
    // round trip through the gzip decoder: would fail if the bytes were
    // handed back unchanged.
    let raw = "Package: cowsay\nVersion: 1.0\nDepends: R (>= 3.5), fortunes\n";
    let packages = available_packages(&gzip(raw)).unwrap();
    assert_eq!(packages.len(), 1);
    let (name, version) = packages[0].get_package();
    assert_eq!((name, version), ("cowsay", "1.0"));
    let reqs: Vec<String> = packages[0].get_requirements().clone();
    assert_eq!(reqs, vec!["R".to_string()]);
}

#[test]
fn test_available_packages_rejects_corrupt_bytes() {
    let err = available_packages(&vec![1u8, 2, 3, 4]).unwrap_err();
    assert!(matches!(err, Error::Decode));
}

#[test]
fn test_available_packages_reports_parse_error() {
    let err = available_packages(&gzip("only one line")).unwrap_err();
    assert!(matches!(err, Error::IndexParse));
}

#[test]
fn test_packages_available_url() {
    assert_eq!(
        get_packages_available_url(),
        "https://repo.r-wasm.org/bin/emscripten/contrib/4.3/PACKAGES.gz"
    );
}

#[test]
fn test_error_messages() {
    assert_eq!(
        Error::NoDistDir("dist".to_string()).message(),
        "Error: The directory dist does not exists"
    );
    assert_eq!(
        Error::PathPrefix("x/y".to_string()).message(),
        "Unable to normalize path: x/y"
    );
    assert!(Error::IndexParse.message().contains("parse error"));
    assert!(Error::Decode.message().contains("decode"));
}
