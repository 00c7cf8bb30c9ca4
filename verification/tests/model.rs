//! The pure parts of the pipeline on concrete values: the probed
//! candidate list, the selection among probe outcomes, the parent
//! model, the URL conversion and the diagnostic messages.

use desktop::{
    directory_of, file_url_from_path, locate_from_outcomes, search_candidates, ShellError,
};

#[test]
fn search_candidates_lists_the_probed_paths_in_order() {
    let cands = search_candidates("/tmp/app");
    assert_eq!(
        cands,
        vec![
            "/tmp/app/index.html".to_string(),
            "/tmp/index.html".to_string(),
            "/index.html".to_string(),
        ]
    );
}

#[test]
fn search_candidates_stops_at_the_budget() {
    let cands = search_candidates("/r/a1/a2/a3/a4/a5/a6/a7");
    assert_eq!(cands.len(), 7);
    assert_eq!(cands[0], "/r/a1/a2/a3/a4/a5/a6/a7/index.html");
    assert_eq!(cands[6], "/r/a1/index.html");
    assert!(!cands.contains(&"/r/index.html".to_string()));
}

#[test]
fn locate_from_outcomes_takes_the_start_directory_first() {
    let cands = search_candidates("/tmp/app");
    let outcomes = vec![true, false, false];
    let found = locate_from_outcomes(&cands, &outcomes).unwrap();
    assert_eq!(found, "/tmp/app/index.html");
}

#[test]
fn locate_from_outcomes_walks_up_to_the_first_hit() {
    let cands = search_candidates("/tmp/app/a/b/c");
    assert_eq!(cands.len(), 6);
    let outcomes = vec![false, false, false, true, false, false];
    let found = locate_from_outcomes(&cands, &outcomes).unwrap();
    assert_eq!(found, "/tmp/app/index.html");
}

#[test]
fn locate_from_outcomes_reports_missing_assets() {
    let cands = search_candidates("/tmp/empty");
    let outcomes = vec![false; cands.len()];
    let error = locate_from_outcomes(&cands, &outcomes).unwrap_err();
    assert!(matches!(error, ShellError::AssetNotFound));
}

#[test]
fn locate_from_outcomes_reaches_exactly_six_levels_up() {
    let cands = search_candidates("/r/a1/a2/a3/a4/a5/a6");
    assert_eq!(cands.len(), 7);
    assert_eq!(cands[6], "/r/index.html");
    let outcomes = vec![false, false, false, false, false, false, true];
    let found = locate_from_outcomes(&cands, &outcomes).unwrap();
    assert_eq!(found, "/r/index.html");
}

#[test]
fn directory_of_strips_the_last_component() {
    assert_eq!(directory_of("/tmp/app/index.html").unwrap(), "/tmp/app");
    assert_eq!(directory_of("/app").unwrap(), "/");
    assert_eq!(directory_of("relative/file").unwrap(), "relative");
}

#[test]
fn directory_of_rejects_the_root_and_empty_paths() {
    assert!(matches!(directory_of("/").unwrap_err(), ShellError::NoParentDirectory));
    assert!(matches!(directory_of("").unwrap_err(), ShellError::NoParentDirectory));
}

#[test]
fn file_url_from_path_serialises_the_exact_url() {
    assert_eq!(
        file_url_from_path("/tmp/app/index.html").unwrap(),
        "file:///tmp/app/index.html"
    );
}

#[test]
fn file_url_from_path_keeps_the_offending_path() {
    let error = file_url_from_path("no/anchor").unwrap_err();
    assert_eq!(error, ShellError::InvalidPathForUrl("no/anchor".to_string()));
    assert_eq!(
        error.message(),
        "Failed to convert \"no/anchor\" to a file:// URL"
    );
}

#[test]
fn messages_spell_out_each_failure() {
    assert_eq!(
        ShellError::ExecutableLookupFailure.message(),
        "Unable to read executable path"
    );
    assert_eq!(
        ShellError::NoParentDirectory.message(),
        "Executable must reside within a directory"
    );
    assert_eq!(
        ShellError::AssetNotFound.message(),
        "Unable to locate index.html next to the executable. Ensure the assets shipped with the app are kept together."
    );
}
