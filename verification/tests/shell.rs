//! Behaviour of the startup pipeline against a real filesystem.

use std::io::Write;

use desktop::{directory_of, file_url_from_path, find_index_near, locate_entry_html};

/// Creates a file named exactly `index.html` inside `dir`.
fn make_index(dir: &std::path::Path) -> tempfile::NamedTempFile {
    let mut file = tempfile::Builder::new()
        .prefix("index.html")
        .rand_bytes(0)
        .tempfile_in(dir)
        .unwrap();
    file.write_all(b"<html></html>").unwrap();
    file
}

/// Creates a directory named exactly `name` inside `parent`.
fn make_dir(parent: &std::path::Path, name: &str) -> tempfile::TempDir {
    tempfile::Builder::new()
        .prefix(name)
        .rand_bytes(0)
        .tempdir_in(parent)
        .unwrap()
}

#[test]
fn locate_entry_html_prefers_start_dir() {
    let temp = tempfile::tempdir().unwrap();
    let _index = make_index(temp.path());

    let found = locate_entry_html(temp.path().to_str().unwrap()).unwrap();
    assert_eq!(found, format!("{}/index.html", temp.path().to_str().unwrap()));
}

#[test]
fn locate_entry_html_walks_up_hierarchy() {
    let temp = tempfile::tempdir().unwrap();
    let a = make_dir(temp.path(), "a");
    let b = make_dir(a.path(), "b");
    let c = make_dir(b.path(), "c");
    let _index = make_index(temp.path());

    let found = locate_entry_html(c.path().to_str().unwrap()).unwrap();
    assert_eq!(found, format!("{}/index.html", temp.path().to_str().unwrap()));
}

#[test]
fn locate_entry_html_reports_error_when_missing() {
    let temp = tempfile::tempdir().unwrap();
    let error = locate_entry_html(temp.path().to_str().unwrap()).unwrap_err();
    assert!(error.message().contains("Unable to locate index.html"));
}

#[test]
fn locate_entry_html_finds_asset_six_levels_up() {
    let temp = tempfile::tempdir().unwrap();
    let _index = make_index(temp.path());
    let a1 = make_dir(temp.path(), "a1");
    let a2 = make_dir(a1.path(), "a2");
    let a3 = make_dir(a2.path(), "a3");
    let a4 = make_dir(a3.path(), "a4");
    let a5 = make_dir(a4.path(), "a5");
    let a6 = make_dir(a5.path(), "a6");

    let found = locate_entry_html(a6.path().to_str().unwrap()).unwrap();
    assert_eq!(found, format!("{}/index.html", temp.path().to_str().unwrap()));
}

#[test]
fn locate_entry_html_gives_up_seven_levels_down() {
    let temp = tempfile::tempdir().unwrap();
    let _index = make_index(temp.path());
    let a1 = make_dir(temp.path(), "a1");
    let a2 = make_dir(a1.path(), "a2");
    let a3 = make_dir(a2.path(), "a3");
    let a4 = make_dir(a3.path(), "a4");
    let a5 = make_dir(a4.path(), "a5");
    let a6 = make_dir(a5.path(), "a6");
    let a7 = make_dir(a6.path(), "a7");

    let error = locate_entry_html(a7.path().to_str().unwrap()).unwrap_err();
    assert!(matches!(error, desktop::ShellError::AssetNotFound));
}

#[test]
fn find_index_near_sees_only_the_given_directory() {
    let temp = tempfile::tempdir().unwrap();
    let _index = make_index(temp.path());
    let inner = make_dir(temp.path(), "inner");

    let dir = temp.path().to_str().unwrap();
    let found = find_index_near(dir).unwrap();
    assert_eq!(found, format!("{dir}/index.html"));
    assert!(find_index_near(inner.path().to_str().unwrap()).is_none());
}

#[test]
fn file_url_from_path_generates_file_scheme() {
    let temp = tempfile::tempdir().unwrap();
    let _index = make_index(temp.path());
    let file = format!("{}/index.html", temp.path().to_str().unwrap());

    let url = file_url_from_path(&file).unwrap();
    assert!(url.starts_with("file://"));
    assert!(url.ends_with("index.html"));
}

#[test]
fn file_url_from_path_rejects_relative_paths() {
    let error = file_url_from_path("relative/index.html").unwrap_err();
    assert!(error.message().contains("Failed to convert \"relative/index.html\""));
}

#[test]
fn directory_of_requires_parent() {
    let error = directory_of("index.html").unwrap_err();
    assert!(error.message().contains("Executable must reside within a directory"));
}
