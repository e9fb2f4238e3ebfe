use kanidm_sshkey_fetcher::config::Cli;
use kanidm_sshkey_fetcher::config::resolve;

fn source(
    debug: bool,
    addr: Option<&str>,
    account_ids: &[&str],
    modify: bool,
) -> Cli {
    Cli {
        debug,
        addr: addr.map(|s| s.to_string()),
        ca_path: None,
        config_path: None,
        account_ids: account_ids.iter().map(|s| s.to_string()).collect(),
        modify,
    }
}

#[test]
fn debug_follows_or_semantics_file_wins_over_default() {
    let cli = source(false, None, &[], false);
    let file = source(true, None, &[], false);
    let defaults = source(false, None, &[], false);
    let resolved = resolve(cli, &vec![file, defaults]);
    assert!(resolved.debug);
}

#[test]
fn modify_follows_or_semantics() {
    let cli = source(false, None, &[], false);
    let file = source(false, None, &[], true);
    let resolved = resolve(cli, &vec![file]);
    assert!(resolved.modify);
}

#[test]
fn account_lists_concatenate_without_dedup() {
    let cli = source(false, None, &["a"], false);
    let file = source(false, None, &["b", "c"], false);
    let resolved = resolve(cli, &vec![file]);
    assert_eq!(resolved.account_ids, vec!["a", "b", "c"]);
}

#[test]
fn duplicate_accounts_are_preserved() {
    let cli = source(false, None, &["a"], false);
    let file = source(false, None, &["a", "b"], false);
    let resolved = resolve(cli, &vec![file]);
    assert_eq!(resolved.account_ids, vec!["a", "a", "b"]);
}

#[test]
fn set_scalar_is_never_overwritten() {
    let mut cli = source(false, Some("https://cli.example"), &[], false);
    let file = source(false, Some("https://file.example"), &[], false);
    cli.or(&file);
    assert_eq!(cli.addr.as_deref(), Some("https://cli.example"));
}

#[test]
fn unset_scalar_is_filled_from_lower_source() {
    let mut cli = source(false, None, &[], false);
    let file = source(false, Some("https://file.example"), &[], false);
    cli.or(&file);
    assert_eq!(cli.addr.as_deref(), Some("https://file.example"));
}

#[test]
fn config_path_is_not_taken_from_lower_source() {
    let mut cli = source(false, None, &[], false);
    let mut file = source(false, None, &[], false);
    file.config_path = Some("/etc/other.toml".to_string());
    cli.or(&file);
    assert_eq!(cli.config_path, None);
}

#[test]
fn first_set_address_wins_across_many_sources() {
    let cli = source(false, None, &[], false);
    let explicit = source(false, None, &[], false);
    let user = source(false, Some("https://user.example"), &[], false);
    let system = source(false, Some("https://system.example"), &[], false);
    let resolved = resolve(cli, &vec![explicit, user, system]);
    assert_eq!(resolved.addr.as_deref(), Some("https://user.example"));
}
