use axer::cli::{
    Args, FetchAction, Mode, bundle_path, decide_fetch, default_base_url, default_db_filename,
    default_out_dir, default_timeout_ms,
};

fn args() -> Args {
    Args {
        url: default_base_url(),
        timeout: default_timeout_ms(),
        db_file: default_db_filename(),
        out_dir: default_out_dir(),
        tx_id: None,
        batch_file: None,
        interactive: false,
    }
}

#[test]
fn defaults_match_the_documented_values() {
    assert_eq!(default_base_url(), "https://arweave.net");
    assert_eq!(default_timeout_ms(), 5000);
    assert_eq!(default_db_filename(), "cache.json");
    assert_eq!(default_out_dir(), "out/");
}

#[test]
fn mode_selection_prefers_batch_then_interactive() {
    let mut a = args();
    a.batch_file = Some("ids.txt".to_string());
    a.interactive = true;
    a.tx_id = Some("tx".to_string());
    assert!(matches!(axer::cli::select_mode(&a), Mode::Batch(f) if f == "ids.txt"));

    a.batch_file = None;
    assert!(matches!(axer::cli::select_mode(&a), Mode::Interactive));

    a.interactive = false;
    assert!(matches!(axer::cli::select_mode(&a), Mode::Single(id) if id == "tx"));

    a.tx_id = None;
    assert!(matches!(axer::cli::select_mode(&a), Mode::MissingTxId));
}

#[test]
fn fetch_decision_covers_the_three_states() {
    assert_eq!(decide_fetch(true, true), FetchAction::AlreadyStored);
    assert_eq!(decide_fetch(true, false), FetchAction::FetchDataOnly);
    assert_eq!(decide_fetch(false, true), FetchAction::FetchAll);
    assert_eq!(decide_fetch(false, false), FetchAction::FetchAll);
}

#[test]
fn second_fetch_after_success_does_nothing() {
    // After a successful fetch the id is cached and the file exists.
    assert_eq!(decide_fetch(true, true), FetchAction::AlreadyStored);
}

#[test]
fn bundle_paths_join_cleanly() {
    assert_eq!(bundle_path("out/", "abc"), "out/abc.json");
    assert_eq!(bundle_path("out", "abc"), "out/abc.json");
    assert_eq!(bundle_path("", "abc"), "/abc.json");
}
