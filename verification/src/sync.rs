//! Managed-block synchronization of an authorized-keys style text file.
//!
//! The file owns a single managed region, delimited by two fixed marker
//! lines. Synchronizing replaces the region's content wholesale with the
//! rendered key block; everything outside the region is preserved. When no
//! well-formed region exists (markers absent, out of order, or only one of
//! the two present), a fresh region is appended after the existing content.

use vstd::prelude::*;

verus! {

/// The literal line that opens the managed region.
pub open spec fn start_marker() -> Seq<char> {
    "# Managed Keys by kanidm_sshkey_fetcher"@
}

/// The literal line that closes the managed region.
pub open spec fn end_marker() -> Seq<char> {
    "# End of Managed Keys by kanidm_sshkey_fetcher"@
}

/// `pat` occurs in `text` starting at position `i`.
pub open spec fn matches_at(text: Seq<char>, pat: Seq<char>, i: int) -> bool {
    &&& 0 <= i
    &&& i + pat.len() <= text.len()
    &&& text.subrange(i, i + pat.len()) == pat
}

/// `pat` occurs somewhere in `text`.
pub open spec fn occurs(text: Seq<char>, pat: Seq<char>) -> bool {
    exists|i: int| matches_at(text, pat, i)
}

/// Position of the first occurrence of `pat` in `text` at or after `i`.
pub open spec fn find_from(text: Seq<char>, pat: Seq<char>, i: int) -> Option<int>
    recommends
        0 <= i <= text.len(),
        pat.len() >= 1,
    decreases text.len() - i,
        when 0 <= i <= text.len() && pat.len() >= 1
{
    if i + pat.len() > text.len() {
        None
    } else if matches_at(text, pat, i) {
        Some(i)
    } else {
        find_from(text, pat, i + 1)
    }
}

/// Position of the first occurrence of `pat` in `text`.
pub open spec fn find_in(text: Seq<char>, pat: Seq<char>) -> Option<int> {
    find_from(text, pat, 0)
}

/// A successful search returns the position of a match, and the first one.
pub proof fn lemma_find_from_some(text: Seq<char>, pat: Seq<char>, i: int, k: int)
    requires
        0 <= i <= text.len(),
        pat.len() >= 1,
        find_from(text, pat, i) == Some(k),
    ensures
        i <= k,
        matches_at(text, pat, k),
        forall|j: int| i <= j < k ==> !matches_at(text, pat, j),
    decreases text.len() - i,
{
    if i + pat.len() > text.len() {
    } else if matches_at(text, pat, i) {
    } else {
        lemma_find_from_some(text, pat, i + 1, k);
    }
}

/// Conversely, the first match position is what the search returns.
pub proof fn lemma_find_from_at(text: Seq<char>, pat: Seq<char>, i: int, k: int)
    requires
        0 <= i <= k,
        pat.len() >= 1,
        matches_at(text, pat, k),
        forall|j: int| i <= j < k ==> !matches_at(text, pat, j),
    ensures
        find_from(text, pat, i) == Some(k),
    decreases k - i,
{
    if i == k {
    } else {
        lemma_find_from_at(text, pat, i + 1, k);
    }
}

/// The half-open span of the managed region's owned content: it begins after
/// the start marker, its line break and the following blank line, and ends
/// at the first occurrence of the end marker. `None` when the file holds no
/// well-formed region (markers absent, out of order, or overlapping).
pub open spec fn region_bounds(text: Seq<char>) -> Option<(int, int)> {
    match (find_in(text, start_marker()), find_in(text, end_marker())) {
        (Some(s), Some(e)) => if s + start_marker().len() + 2 <= e {
            Some((s + start_marker().len() + 2, e))
        } else {
            None
        },
        _ => None,
    }
}

/// The rendered key block: each key line verbatim, terminated by a line
/// break, in the order given.
pub open spec fn render_model(keys: Seq<Seq<char>>) -> Seq<char>
    decreases keys.len(),
{
    if keys.len() == 0 {
        Seq::empty()
    } else {
        render_model(keys.drop_last()) + keys.last() + seq!['\n']
    }
}

/// The fresh region appended when no well-formed region exists: a line
/// break, the start marker line, a blank line, the key block, a blank line,
/// and the end marker line.
pub open spec fn appended_region(keys: Seq<Seq<char>>) -> Seq<char> {
    seq!['\n'] + start_marker() + seq!['\n', '\n'] + render_model(keys) + seq!['\n'] + end_marker()
        + seq!['\n']
}

/// The synchronized file content: with a well-formed region, everything
/// strictly between the region bounds is replaced by the key block and one
/// blank line; otherwise a fresh region is appended to the unchanged content.
pub open spec fn upsert_model(text: Seq<char>, keys: Seq<Seq<char>>) -> Seq<char> {
    match region_bounds(text) {
        Some(b) => text.subrange(0, b.0) + render_model(keys) + seq!['\n'] + text.subrange(
            b.1,
            text.len() as int,
        ),
        None => text + appended_region(keys),
    }
}

/// Find the first occurrence of `pat` in `text`, by character position.
fn find_marker(text: &str, pat: &str) -> (r: Option<usize>)
    requires
        pat@.len() >= 1,
    ensures
        match r {
            Some(i) => find_in(text@, pat@) == Some(i as int),
            None => find_in(text@, pat@) is None,
        },
{
    let n = text.unicode_len();
    let m = pat.unicode_len();
    if m > n {
        return None;
    }
    let mut i: usize = 0;
    while i <= n - m
        invariant
            m >= 1,
            m <= n,
            i <= n - m + 1,
            n == text@.len(),
            m == pat@.len(),
            find_from(text@, pat@, 0) == find_from(text@, pat@, i as int),
        decreases n + 1 - m - i,
    {
        let mut j: usize = 0;
        let mut ok = true;
        while j < m
            invariant
                m >= 1,
                m <= n,
                i <= n - m,
                j <= m,
                n == text@.len(),
                m == pat@.len(),
                ok ==> forall|t: int| 0 <= t < j ==> text@[i + t] == pat@[t],
                !ok ==> !matches_at(text@, pat@, i as int),
            decreases m - j,
        {
            if text.get_char(i + j) != pat.get_char(j) {
                proof {
                    if matches_at(text@, pat@, i as int) {
                        assert(text@.subrange(i as int, i + m)[j as int] == pat@[j as int]);
                    }
                }
                ok = false;
            }
            j = j + 1;
        }
        if ok {
            proof {
                assert(text@.subrange(i as int, i + m) =~= pat@);
            }
            return Some(i);
        }
        i = i + 1;
    }
    proof {
        assert(find_from(text@, pat@, i as int) is None);
    }
    None
}

/// Render the key block: each key line verbatim, each terminated by a line
/// break, in the order given.
fn render_block(keys: &Vec<String>) -> (r: String)
    ensures
        r@ == render_model(keys.deep_view()),
{
    let mut r = String::new();
    proof {
        reveal_strlit("\n");
        assert(r@ =~= render_model(keys.deep_view().take(0)));
    }
    let mut i: usize = 0;
    while i < keys.len()
        invariant
            i <= keys.len(),
            r@ == render_model(keys.deep_view().take(i as int)),
        decreases keys.len() - i,
    {
        let ghost pre = r@;
        let ghost kv = keys.deep_view();
        let k: &String = &keys[i];
        r.append(k.as_str());
        r.append("\n");
        proof {
            reveal_strlit("\n");
            assert(("\n")@ =~= seq!['\n']);
            assert(kv.take(i + 1).drop_last() =~= kv.take(i as int));
            assert(kv.take(i + 1).last() == kv[i as int]);
            assert(r@ =~= render_model(kv.take(i as int)) + kv[i as int] + seq!['\n']);
            assert(r@ =~= render_model(kv.take(i + 1)));
        }
        i = i + 1;
    }
    proof {
        assert(keys.deep_view().take(keys.len() as int) =~= keys.deep_view());
    }
    r
}

/// `s` holds no line break.
pub open spec fn newline_free(s: Seq<char>) -> bool {
    forall|t: int| 0 <= t < s.len() ==> s[t] != '\n'
}

/// Both marker lines are line-break free, and their lengths are fixed.
pub proof fn lemma_markers()
    ensures
        newline_free(start_marker()),
        newline_free(end_marker()),
        start_marker().len() == 39,
        end_marker().len() == 46,
{
    reveal_strlit("# Managed Keys by kanidm_sshkey_fetcher");
    reveal_strlit("# End of Managed Keys by kanidm_sshkey_fetcher");
}

/// Each character covered by a match equals the corresponding pattern character.
proof fn lemma_match_chars(text: Seq<char>, pat: Seq<char>, j: int, p: int)
    requires
        matches_at(text, pat, j),
        j <= p < j + pat.len(),
    ensures
        text[p] == pat[p - j],
{
    assert(text.subrange(j, j + pat.len())[p - j] == pat[p - j]);
}

/// A line break inside the would-be span of a line-break-free pattern
/// rules the match out.
proof fn lemma_newline_blocks(text: Seq<char>, pat: Seq<char>, j: int, p: int)
    requires
        newline_free(pat),
        0 <= p < text.len(),
        text[p] == '\n',
        j <= p < j + pat.len(),
    ensures
        !matches_at(text, pat, j),
{
    if matches_at(text, pat, j) {
        lemma_match_chars(text, pat, j, p);
    }
}

/// When no key line holds the end marker, the rendered block does not
/// either; a non-empty block ends with a line break.
proof fn lemma_render_no_end(keys: Seq<Seq<char>>)
    requires
        forall|i: int| 0 <= i < keys.len() ==> !occurs(#[trigger] keys[i], end_marker()),
    ensures
        !occurs(render_model(keys), end_marker()),
        render_model(keys).len() > 0 ==> render_model(keys).last() == '\n',
    decreases keys.len(),
{
    lemma_markers();
    let ee = end_marker().len();
    if keys.len() == 0 {
        assert forall|j: int| !matches_at(render_model(keys), end_marker(), j) by {
            assert(render_model(keys).len() == 0);
        }
    } else {
        let prev = render_model(keys.drop_last());
        let k = keys.last();
        assert(forall|i: int|
            0 <= i < keys.drop_last().len() ==> !occurs(
                #[trigger] keys.drop_last()[i],
                end_marker(),
            ));
        lemma_render_no_end(keys.drop_last());
        let r = render_model(keys);
        assert(r == prev + k + seq!['\n']);
        assert forall|j: int| !matches_at(r, end_marker(), j) by {
            if matches_at(r, end_marker(), j) {
                if j + ee <= prev.len() {
                    assert(prev.subrange(j, j + ee) =~= r.subrange(j, j + ee));
                    assert(matches_at(prev, end_marker(), j));
                    assert(occurs(prev, end_marker()));
                    assert(false);
                } else if j < prev.len() {
                    assert(r[prev.len() - 1] == prev.last());
                    lemma_newline_blocks(r, end_marker(), j, prev.len() - 1);
                    assert(false);
                } else if j + ee <= prev.len() + k.len() {
                    assert(k.subrange(j - prev.len(), j - prev.len() + ee) =~= r.subrange(
                        j,
                        j + ee,
                    ));
                    assert(matches_at(k, end_marker(), j - prev.len()));
                    assert(k == keys[keys.len() - 1]);
                    assert(occurs(k, end_marker()));
                    assert(false);
                } else {
                    assert(r[prev.len() + k.len() as int] == '\n');
                    lemma_newline_blocks(r, end_marker(), j, prev.len() + k.len() as int);
                    assert(false);
                }
            }
        }
    }
}

/// Law: with a well-formed managed region, synchronization preserves all
/// content up to and including the start marker and its blank line, and all
/// content from the end marker onward; in particular everything strictly
/// before the start marker and strictly from the end marker on is unaltered.
pub proof fn lemma_preserves_around_region(text: Seq<char>, keys: Seq<Seq<char>>, rs: int, re: int)
    requires
        region_bounds(text) == Some((rs, re)),
    ensures
        start_marker().len() + 2 <= rs <= re <= text.len(),
        upsert_model(text, keys).subrange(0, rs) == text.subrange(0, rs),
        upsert_model(text, keys).len() == rs + render_model(keys).len() + 1 + (text.len() - re),
        upsert_model(text, keys).subrange(
            rs + render_model(keys).len() + 1,
            upsert_model(text, keys).len() as int,
        ) == text.subrange(re, text.len() as int),
{
    lemma_markers();
    let s = find_in(text, start_marker()).unwrap();
    let e = find_in(text, end_marker()).unwrap();
    lemma_find_from_some(text, start_marker(), 0, s);
    lemma_find_from_some(text, end_marker(), 0, e);
    let out = upsert_model(text, keys);
    assert(out == text.subrange(0, rs) + render_model(keys) + seq!['\n'] + text.subrange(
        re,
        text.len() as int,
    ));
    assert(out.subrange(0, rs) =~= text.subrange(0, rs));
    assert(out.subrange(rs + render_model(keys).len() + 1, out.len() as int) =~= text.subrange(
        re,
        text.len() as int,
    ));
}

/// Law: with no well-formed managed region, the original content is
/// preserved in full as a prefix and a fresh region follows it.
pub proof fn lemma_preserves_no_region(text: Seq<char>, keys: Seq<Seq<char>>)
    requires
        region_bounds(text) is None,
    ensures
        upsert_model(text, keys) == text + appended_region(keys),
        upsert_model(text, keys).subrange(0, text.len() as int) == text,
{
    assert(upsert_model(text, keys).subrange(0, text.len() as int) =~= text);
}

/// Law: synchronizing twice with the same key list yields content identical
/// to synchronizing once. Stated for content that holds no marker text yet
/// and for key lines that do not themselves contain the end marker; with a
/// stray lone marker in the content (or a key line carrying the end marker),
/// the region the first call appends is not the one a second call finds, and
/// the two results genuinely differ.
pub proof fn lemma_upsert_idempotent(text: Seq<char>, keys: Seq<Seq<char>>)
    requires
        !occurs(text, start_marker()),
        !occurs(text, end_marker()),
        forall|i: int| 0 <= i < keys.len() ==> !occurs(#[trigger] keys[i], end_marker()),
    ensures
        upsert_model(upsert_model(text, keys), keys) == upsert_model(text, keys),
{
    lemma_markers();
    lemma_render_no_end(keys);
    let sm = start_marker();
    let em = end_marker();
    let ll: int = 39;
    let ee: int = 46;
    let n = text.len() as int;
    let r = render_model(keys);
    let rl = r.len() as int;
    match find_in(text, sm) {
        Some(k) => {
            lemma_find_from_some(text, sm, 0, k);
            assert(false);
        },
        None => {},
    }
    match find_in(text, em) {
        Some(k) => {
            lemma_find_from_some(text, em, 0, k);
            assert(false);
        },
        None => {},
    }
    assert(region_bounds(text) is None);
    let c1 = text + appended_region(keys);
    assert(upsert_model(text, keys) == c1);
    assert(c1.len() == n + ll + ee + rl + 5);
    assert(c1[n] == '\n');
    assert(c1[n + ll + 1] == '\n');
    assert(c1[n + ll + 2] == '\n');
    assert(c1[n + ll + 3 + rl] == '\n');
    assert(matches_at(c1, sm, n + 1)) by {
        assert(c1.subrange(n + 1, n + 1 + ll) =~= sm);
    }
    assert forall|j: int| 0 <= j < n + 1 implies !matches_at(c1, sm, j) by {
        if matches_at(c1, sm, j) {
            if j + ll <= n {
                assert(text.subrange(j, j + ll) =~= c1.subrange(j, j + ll));
                assert(matches_at(text, sm, j));
                assert(false);
            } else {
                lemma_newline_blocks(c1, sm, j, n);
                assert(false);
            }
        }
    }
    lemma_find_from_at(c1, sm, 0, n + 1);
    let ep = n + ll + rl + 4;
    assert(matches_at(c1, em, ep)) by {
        assert(c1.subrange(ep, ep + ee) =~= em);
    }
    assert forall|j: int| 0 <= j < ep implies !matches_at(c1, em, j) by {
        if matches_at(c1, em, j) {
            if j + ee <= n {
                assert(text.subrange(j, j + ee) =~= c1.subrange(j, j + ee));
                assert(matches_at(text, em, j));
                assert(false);
            } else if j <= n {
                lemma_newline_blocks(c1, em, j, n);
                assert(false);
            } else if j <= n + ll + 2 {
                lemma_newline_blocks(c1, em, j, n + ll + 2);
                assert(false);
            } else if j + ee <= n + ll + 3 + rl {
                assert(r.subrange(j - (n + ll + 3), j - (n + ll + 3) + ee) =~= c1.subrange(
                    j,
                    j + ee,
                ));
                assert(matches_at(r, em, j - (n + ll + 3)));
                assert(occurs(r, em));
                assert(false);
            } else {
                lemma_newline_blocks(c1, em, j, n + ll + 3 + rl);
                assert(false);
            }
        }
    }
    lemma_find_from_at(c1, em, 0, ep);
    assert(region_bounds(c1) == Some((n + ll + 3, ep)));
    assert(upsert_model(c1, keys) == c1.subrange(0, n + ll + 3) + r + seq!['\n'] + c1.subrange(
        ep,
        c1.len() as int,
    ));
    assert(upsert_model(c1, keys) =~= c1);
}

/// Law: the same, for content that already holds a well-formed managed
/// region whose start marker line is followed by its line break (as every
/// region this synchronizer writes is): the second call finds exactly the
/// region the first call wrote and replaces it with identical content.
pub proof fn lemma_upsert_idempotent_with_region(
    text: Seq<char>,
    keys: Seq<Seq<char>>,
    rs: int,
    re: int,
)
    requires
        region_bounds(text) == Some((rs, re)),
        text[rs - 1] == '\n',
        forall|i: int| 0 <= i < keys.len() ==> !occurs(#[trigger] keys[i], end_marker()),
    ensures
        upsert_model(upsert_model(text, keys), keys) == upsert_model(text, keys),
{
    lemma_markers();
    lemma_render_no_end(keys);
    let sm = start_marker();
    let em = end_marker();
    let ll: int = 39;
    let ee: int = 46;
    let n = text.len() as int;
    let r = render_model(keys);
    let rl = r.len() as int;
    let s = rs - ll - 2;
    lemma_find_from_some(text, sm, 0, s);
    lemma_find_from_some(text, em, 0, re);
    let c2 = upsert_model(text, keys);
    assert(c2 == text.subrange(0, rs) + r + seq!['\n'] + text.subrange(re, n));
    assert(c2.len() == rs + rl + 1 + (n - re));
    assert(matches_at(c2, sm, s)) by {
        assert(c2.subrange(s, s + ll) =~= text.subrange(s, s + ll));
    }
    assert forall|j: int| 0 <= j < s implies !matches_at(c2, sm, j) by {
        if matches_at(c2, sm, j) {
            assert(text.subrange(j, j + ll) =~= c2.subrange(j, j + ll));
            assert(matches_at(text, sm, j));
            assert(false);
        }
    }
    lemma_find_from_at(c2, sm, 0, s);
    let ep = rs + rl + 1;
    assert(matches_at(c2, em, ep)) by {
        assert(c2.subrange(ep, ep + ee) =~= text.subrange(re, re + ee));
        assert(text.subrange(re, re + ee) == em);
    }
    assert(c2[rs - 1] == '\n');
    assert(c2[rs + rl] == '\n');
    assert forall|j: int| 0 <= j < ep implies !matches_at(c2, em, j) by {
        if matches_at(c2, em, j) {
            if j + ee <= rs {
                assert(text.subrange(j, j + ee) =~= c2.subrange(j, j + ee));
                assert(matches_at(text, em, j));
                assert(false);
            } else if j < rs {
                lemma_newline_blocks(c2, em, j, rs - 1);
                assert(false);
            } else if j + ee <= rs + rl {
                assert(r.subrange(j - rs, j - rs + ee) =~= c2.subrange(j, j + ee));
                assert(matches_at(r, em, j - rs));
                assert(occurs(r, em));
                assert(false);
            } else {
                lemma_newline_blocks(c2, em, j, rs + rl);
                assert(false);
            }
        }
    }
    lemma_find_from_at(c2, em, 0, ep);
    assert(region_bounds(c2) == Some((rs, ep)));
    assert(upsert_model(c2, keys) == c2.subrange(0, rs) + r + seq!['\n'] + c2.subrange(
        ep,
        c2.len() as int,
    ));
    assert(upsert_model(c2, keys) =~= c2);
}

/// Append a fresh managed region holding `block` to `content`.
fn append_region(content: &str, block: &String) -> (out: String)
    ensures
        out@ == content@ + seq!['\n'] + start_marker() + seq!['\n', '\n'] + block@ + seq!['\n']
            + end_marker() + seq!['\n'],
{
    let mut out = content.to_owned();
    out.append("\n");
    out.append("# Managed Keys by kanidm_sshkey_fetcher");
    out.append("\n\n");
    out.append(block.as_str());
    out.append("\n");
    out.append("# End of Managed Keys by kanidm_sshkey_fetcher");
    out.append("\n");
    proof {
        reveal_strlit("\n");
        reveal_strlit("\n\n");
        assert(("\n")@ =~= seq!['\n']);
        assert(("\n\n")@ =~= seq!['\n', '\n']);
        assert(out@ =~= content@ + seq!['\n'] + start_marker() + seq!['\n', '\n'] + block@
            + seq!['\n'] + end_marker() + seq!['\n']);
    }
    out
}

/// Synchronize the managed region of `content` with `keys`: replace the
/// region's content when a well-formed region exists, append a fresh region
/// otherwise. Content outside the region is preserved byte for byte.
pub fn upsert_managed_block(content: &str, keys: &Vec<String>) -> (out: String)
    ensures
        out@ == upsert_model(content@, keys.deep_view()),
{
    let start_lit: &str = "# Managed Keys by kanidm_sshkey_fetcher";
    let end_lit: &str = "# End of Managed Keys by kanidm_sshkey_fetcher";
    proof {
        reveal_strlit("# Managed Keys by kanidm_sshkey_fetcher");
        reveal_strlit("# End of Managed Keys by kanidm_sshkey_fetcher");
        assert(start_lit@ == start_marker());
        assert(end_lit@ == end_marker());
        assert(start_marker().len() == 39);
        assert(end_marker().len() == 46);
    }
    let block = render_block(keys);
    let s_opt = find_marker(content, start_lit);
    let e_opt = find_marker(content, end_lit);
    let n = content.unicode_len();
    match (s_opt, e_opt) {
        (Some(s), Some(e)) => {
            proof {
                lemma_find_from_some(content@, start_marker(), 0, s as int);
                lemma_find_from_some(content@, end_marker(), 0, e as int);
            }
            let sl = start_lit.unicode_len();
            if e >= sl + 2 && s <= e - sl - 2 {
                let rs = s + sl + 2;
                let prefix = content.substring_char(0, rs);
                let suffix = content.substring_char(e, n);
                let mut out = prefix.to_owned();
                out.append(block.as_str());
                out.append("\n");
                out.append(suffix);
                proof {
                    reveal_strlit("\n");
                    assert(("\n")@ =~= seq!['\n']);
                    assert(region_bounds(content@) == Some((rs as int, e as int)));
                    assert(out@ =~= upsert_model(content@, keys.deep_view()));
                }
                out
            } else {
                proof {
                    assert(region_bounds(content@) is None);
                }
                append_region(content, &block)
            }
        },
        _ => {
            proof {
                assert(region_bounds(content@) is None);
            }
            append_region(content, &block)
        },
    }
}

} // verus!
