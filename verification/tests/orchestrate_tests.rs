use kanidm_sshkey_fetcher::orchestrate::collect_keys;
use kanidm_sshkey_fetcher::sync::upsert_managed_block;

const START: &str = "# Managed Keys by kanidm_sshkey_fetcher";
const END: &str = "# End of Managed Keys by kanidm_sshkey_fetcher";

#[test]
fn failed_account_is_skipped_and_rest_kept() {
    // two accounts requested: the first retrieval fails (transport error),
    // the second returns one key; the run carries on.
    let results: Vec<Option<Vec<String>>> = vec![
        None,
        Some(vec!["ssh-key-2".to_string()]),
    ];
    let flat = collect_keys(&results);
    assert_eq!(flat, vec!["ssh-key-2"]);
    let out = upsert_managed_block("", &flat);
    let expected = format!("\n{}\n\nssh-key-2\n\n{}\n", START, END);
    assert_eq!(out, expected);
}

#[test]
fn keys_concatenate_in_account_order() {
    let results: Vec<Option<Vec<String>>> = vec![
        Some(vec!["a1".to_string(), "a2".to_string()]),
        None,
        Some(vec!["b1".to_string()]),
    ];
    let flat = collect_keys(&results);
    assert_eq!(flat, vec!["a1", "a2", "b1"]);
}

#[test]
fn all_failures_yield_empty_list() {
    let results: Vec<Option<Vec<String>>> = vec![None, None];
    let flat = collect_keys(&results);
    assert!(flat.is_empty());
}
