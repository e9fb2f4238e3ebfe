//! Flattening of per-account retrieval outcomes.
//!
//! Keys are requested one account at a time, in the order the accounts were
//! supplied. A failed retrieval is skipped; the keys of all successful
//! retrievals are concatenated, account by account, into one flat list.

use vstd::prelude::*;

verus! {

/// The flat key list that a sequence of per-account outcomes yields:
/// each successful outcome contributes its keys in order, a failed
/// outcome contributes nothing.
pub open spec fn flatten_retrieved(results: Seq<Option<Seq<Seq<char>>>>) -> Seq<Seq<char>>
    decreases results.len(),
{
    if results.len() == 0 {
        Seq::empty()
    } else {
        flatten_retrieved(results.drop_last()) + (match results.last() {
            Some(ks) => ks,
            None => Seq::empty(),
        })
    }
}

/// Concatenate the keys of the successful retrievals, in retrieval order,
/// skipping the failed ones.
pub fn collect_keys(results: &Vec<Option<Vec<String>>>) -> (keys: Vec<String>)
    ensures
        keys.deep_view() == flatten_retrieved(results.deep_view()),
{
    let mut keys: Vec<String> = Vec::new();
    proof {
        assert(keys.deep_view() =~= flatten_retrieved(results.deep_view().take(0)));
    }
    let mut i: usize = 0;
    while i < results.len()
        invariant
            i <= results.len(),
            keys.deep_view() == flatten_retrieved(results.deep_view().take(i as int)),
        decreases results.len() - i,
    {
        match &results[i] {
            Some(ks) => {
                proof {
                    assert(keys.deep_view() =~= flatten_retrieved(
                        results.deep_view().take(i as int),
                    ) + ks.deep_view().take(0));
                }
                let mut j: usize = 0;
                while j < ks.len()
                    invariant
                        j <= ks.len(),
                        i < results.len(),
                        results[i as int] == Some(*ks),
                        keys.deep_view() == flatten_retrieved(results.deep_view().take(i as int))
                            + ks.deep_view().take(j as int),
                    decreases ks.len() - j,
                {
                    let ghost pre = keys.deep_view();
                    let ghost kv = ks.deep_view();
                    let k: &String = &ks[j];
                    keys.push(k.clone());
                    proof {
                        assert(keys.deep_view() =~= pre.push(kv[j as int]));
                        assert(kv.take(j + 1) =~= kv.take(j as int).push(kv[j as int]));
                        assert(keys.deep_view() =~= flatten_retrieved(
                            results.deep_view().take(i as int),
                        ) + kv.take(j + 1));
                    }
                    j = j + 1;
                }
                proof {
                    assert(ks.deep_view().take(ks.len() as int) =~= ks.deep_view());
                    assert(results.deep_view().take(i + 1).drop_last() =~= results.deep_view().take(
                        i as int,
                    ));
                    assert(results.deep_view().take(i + 1).last() == Some(ks.deep_view()));
                    assert(keys.deep_view() =~= flatten_retrieved(
                        results.deep_view().take(i + 1),
                    ));
                }
            },
            None => {
                proof {
                    assert(results.deep_view().take(i + 1).drop_last() =~= results.deep_view().take(
                        i as int,
                    ));
                    assert(results.deep_view().take(i + 1).last() is None);
                    assert(keys.deep_view() =~= flatten_retrieved(
                        results.deep_view().take(i + 1),
                    ));
                }
            },
        }
        i = i + 1;
    }
    proof {
        assert(results.deep_view().take(results.len() as int) =~= results.deep_view());
    }
    keys
}

} // verus!
