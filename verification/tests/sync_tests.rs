use kanidm_sshkey_fetcher::sync::upsert_managed_block;

const START: &str = "# Managed Keys by kanidm_sshkey_fetcher";
const END: &str = "# End of Managed Keys by kanidm_sshkey_fetcher";

fn keys(v: &[&str]) -> Vec<String> {
    v.iter().map(|s| s.to_string()).collect()
}

#[test]
fn fresh_region_on_empty_file() {
    let out = upsert_managed_block("", &keys(&["k1", "k2"]));
    let expected = format!("\n{}\n\nk1\nk2\n\n{}\n", START, END);
    assert_eq!(out, expected);
}

#[test]
fn order_of_keys_is_kept() {
    let out = upsert_managed_block("", &keys(&["k1", "k2"]));
    let s = out.find(START).unwrap();
    let e = out.find(END).unwrap();
    let region = &out[s + START.len()..e];
    assert_eq!(region, "\n\nk1\nk2\n\n");
    assert!(s < e);
}

#[test]
fn append_preserves_existing_content() {
    let content = "existing line\nanother line\n";
    let out = upsert_managed_block(content, &keys(&["k1"]));
    assert!(out.starts_with(content));
    let expected = format!("{}\n{}\n\nk1\n\n{}\n", content, START, END);
    assert_eq!(out, expected);
}

#[test]
fn replace_preserves_prefix_and_suffix() {
    let content = format!("user line\n{}\n\nold\n\n{}\ntrailing\n", START, END);
    let out = upsert_managed_block(&content, &keys(&["new"]));
    let expected = format!("user line\n{}\n\nnew\n\n{}\ntrailing\n", START, END);
    assert_eq!(out, expected);
}

#[test]
fn idempotent_on_empty_file() {
    let ks = keys(&["ssh-rsa AAAA user@host", "ssh-ed25519 BBBB other@host"]);
    let once = upsert_managed_block("", &ks);
    let twice = upsert_managed_block(&once, &ks);
    assert_eq!(once, twice);
}

#[test]
fn idempotent_on_file_with_content() {
    let ks = keys(&["ssh-rsa AAAA user@host"]);
    let content = "manual key line\n# a comment\n";
    let once = upsert_managed_block(content, &ks);
    let twice = upsert_managed_block(&once, &ks);
    assert_eq!(once, twice);
}

#[test]
fn replacing_overwrites_previous_keys() {
    let first = upsert_managed_block("", &keys(&["k1", "k2"]));
    let second = upsert_managed_block(&first, &keys(&["k3"]));
    let direct = upsert_managed_block("", &keys(&["k3"]));
    assert_eq!(second, direct);
}

#[test]
fn only_end_marker_appends_fresh_region() {
    let content = format!("x\n{}\n", END);
    let out = upsert_managed_block(&content, &keys(&["k1"]));
    assert!(out.starts_with(content.as_str()));
    let expected = format!("{}\n{}\n\nk1\n\n{}\n", content, START, END);
    assert_eq!(out, expected);
}

#[test]
fn only_start_marker_appends_fresh_region() {
    let content = format!("x\n{}\nmanual edit\n", START);
    let out = upsert_managed_block(&content, &keys(&["k1"]));
    assert!(out.starts_with(content.as_str()));
    let expected = format!("{}\n{}\n\nk1\n\n{}\n", content, START, END);
    assert_eq!(out, expected);
}

#[test]
fn markers_out_of_order_append_fresh_region() {
    let content = format!("{}\n{}\n", END, START);
    let out = upsert_managed_block(&content, &keys(&["k1"]));
    assert!(out.starts_with(content.as_str()));
    let expected = format!("{}\n{}\n\nk1\n\n{}\n", content, START, END);
    assert_eq!(out, expected);
}

#[test]
fn empty_key_list_still_writes_both_markers() {
    let out = upsert_managed_block("", &keys(&[]));
    let expected = format!("\n{}\n\n\n{}\n", START, END);
    assert_eq!(out, expected);
    // the empty region is well-formed: a later call replaces it in place
    let later = upsert_managed_block(&out, &keys(&["k1"]));
    let direct = upsert_managed_block("", &keys(&["k1"]));
    assert_eq!(later, direct);
}

#[test]
fn key_lines_written_verbatim_no_dedup() {
    let out = upsert_managed_block("", &keys(&["same", "same"]));
    let expected = format!("\n{}\n\nsame\nsame\n\n{}\n", START, END);
    assert_eq!(out, expected);
}
