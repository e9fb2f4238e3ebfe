//! Layered configuration resolution.
//!
//! A run draws configuration from several partial sources (command-line
//! arguments, explicit and optional configuration files, built-in defaults).
//! Sources are merged highest precedence first: a set scalar field is never
//! overwritten by a later (lower) source, boolean flags combine by logical
//! or, and account identifier lists concatenate across all sources.

use vstd::prelude::*;

verus! {

/// One partial configuration, as a single source supplies it.
///
/// `debug` and `modify` are flags (unset means `false`); `addr`, `ca_path`
/// and `config_path` are scalar options; `account_ids` is an ordered list of
/// account identifiers, duplicates allowed.
pub struct Cli {
    pub debug: bool,
    pub addr: Option<String>,
    pub ca_path: Option<String>,
    pub config_path: Option<String>,
    pub account_ids: Vec<String>,
    pub modify: bool,
}

/// Mathematical model of a configuration value.
#[verifier::ext_equal]
pub ghost struct CliModel {
    pub debug: bool,
    pub addr: Option<Seq<char>>,
    pub ca_path: Option<Seq<char>>,
    pub config_path: Option<Seq<char>>,
    pub account_ids: Seq<Seq<char>>,
    pub modify: bool,
}

impl View for Cli {
    type V = CliModel;

    open spec fn view(&self) -> CliModel {
        CliModel {
            debug: self.debug,
            addr: self.addr.deep_view(),
            ca_path: self.ca_path.deep_view(),
            config_path: self.config_path.deep_view(),
            account_ids: self.account_ids.deep_view(),
            modify: self.modify,
        }
    }
}

impl DeepView for Cli {
    type V = CliModel;

    open spec fn deep_view(&self) -> CliModel {
        self.view()
    }
}

/// How a higher-precedence source absorbs a lower-precedence one:
/// flags combine by or, a scalar already set is kept, account identifier
/// lists concatenate (higher source's entries first), and the configuration
/// file path is never taken from a lower source.
pub open spec fn or_model(hi: CliModel, lo: CliModel) -> CliModel {
    CliModel {
        debug: hi.debug || lo.debug,
        addr: if hi.addr is Some {
            hi.addr
        } else {
            lo.addr
        },
        ca_path: if hi.ca_path is Some {
            hi.ca_path
        } else {
            lo.ca_path
        },
        config_path: hi.config_path,
        account_ids: hi.account_ids + lo.account_ids,
        modify: hi.modify || lo.modify,
    }
}

impl Cli {
    /// Merge a lower-precedence source into this one.
    pub fn or(&mut self, other: &Cli)
        ensures
            final(self)@ == or_model(old(self)@, other@),
    {
        self.debug = self.debug || other.debug;
        if self.addr.is_none() {
            self.addr = match &other.addr {
                Some(a) => Some(a.clone()),
                None => None,
            };
        }
        if self.ca_path.is_none() {
            self.ca_path = match &other.ca_path {
                Some(p) => Some(p.clone()),
                None => None,
            };
        }
        proof {
            assert(self.account_ids.deep_view() =~= old(self).account_ids.deep_view()
                + other.account_ids.deep_view().take(0));
        }
        let mut i: usize = 0;
        while i < other.account_ids.len()
            invariant
                i <= other.account_ids.len(),
                self.account_ids.deep_view() == old(self).account_ids.deep_view()
                    + other.account_ids.deep_view().take(i as int),
                self.debug == (old(self).debug || other.debug),
                self.addr.deep_view() == (if old(self)@.addr is Some {
                    old(self)@.addr
                } else {
                    other@.addr
                }),
                self.ca_path.deep_view() == (if old(self)@.ca_path is Some {
                    old(self)@.ca_path
                } else {
                    other@.ca_path
                }),
                self.config_path == old(self).config_path,
                self.modify == old(self).modify,
            decreases other.account_ids.len() - i,
        {
            let ghost pre = self.account_ids.deep_view();
            let ghost oth = other.account_ids.deep_view();
            let id: &String = &other.account_ids[i];
            self.account_ids.push(id.clone());
            proof {
                assert(self.account_ids.deep_view() =~= pre.push(oth[i as int]));
                assert(oth.take(i + 1) =~= oth.take(i as int).push(oth[i as int]));
                assert(self.account_ids.deep_view() =~= old(self).account_ids.deep_view()
                    + oth.take(i + 1));
            }
            i = i + 1;
        }
        self.modify = self.modify || other.modify;
        proof {
            assert(other.account_ids.deep_view().take(other.account_ids.len() as int)
                =~= other.account_ids.deep_view());
            assert(final(self)@ =~= or_model(old(self)@, other@));
        }
    }
}

/// The effective configuration that an ordered fold of the sources yields:
/// `acc` is the merge so far, `rest` the remaining sources in decreasing
/// precedence.
pub open spec fn resolve_model(acc: CliModel, rest: Seq<CliModel>) -> CliModel
    decreases rest.len(),
{
    if rest.len() == 0 {
        acc
    } else {
        resolve_model(or_model(acc, rest[0]), rest.drop_first())
    }
}

/// Merge the sources into one effective configuration. `highest` is the
/// highest-precedence source (the command line); `rest` holds the remaining
/// sources in decreasing precedence, built-in defaults last.
pub fn resolve(highest: Cli, rest: &Vec<Cli>) -> (r: Cli)
    ensures
        r@ == resolve_model(highest@, rest.deep_view()),
{
    let ghost h0 = highest@;
    let mut acc = highest;
    proof {
        assert(rest.deep_view().skip(0) =~= rest.deep_view());
    }
    let mut i: usize = 0;
    while i < rest.len()
        invariant
            i <= rest.len(),
            resolve_model(acc@, rest.deep_view().skip(i as int)) == resolve_model(
                h0,
                rest.deep_view(),
            ),
        decreases rest.len() - i,
    {
        let ghost pre = acc@;
        acc.or(&rest[i]);
        proof {
            let rv = rest.deep_view();
            assert(rv.skip(i as int)[0] == rv[i as int]);
            assert(rv.skip(i as int).drop_first() =~= rv.skip(i + 1));
            assert(resolve_model(pre, rv.skip(i as int)) == resolve_model(
                or_model(pre, rv[i as int]),
                rv.skip(i + 1),
            ));
        }
        i = i + 1;
    }
    proof {
        assert(rest.deep_view().skip(rest.len() as int) =~= Seq::<CliModel>::empty());
    }
    acc
}

/// Whether any source in the sequence sets `debug`.
pub open spec fn any_debug(ss: Seq<CliModel>) -> bool
    decreases ss.len(),
{
    if ss.len() == 0 {
        false
    } else {
        ss[0].debug || any_debug(ss.drop_first())
    }
}

/// Whether any source in the sequence sets `modify`.
pub open spec fn any_modify(ss: Seq<CliModel>) -> bool
    decreases ss.len(),
{
    if ss.len() == 0 {
        false
    } else {
        ss[0].modify || any_modify(ss.drop_first())
    }
}

/// The account identifiers of all sources in the sequence, concatenated in
/// order, duplicates preserved.
pub open spec fn all_account_ids(ss: Seq<CliModel>) -> Seq<Seq<char>>
    decreases ss.len(),
{
    if ss.len() == 0 {
        Seq::empty()
    } else {
        ss[0].account_ids + all_account_ids(ss.drop_first())
    }
}

/// Law: the resolved boolean flags follow logical-or semantics across all
/// sources — true exactly when some source set them true, whatever that
/// source's precedence.
pub proof fn lemma_resolve_flags_or(acc: CliModel, rest: Seq<CliModel>)
    ensures
        resolve_model(acc, rest).debug == (acc.debug || any_debug(rest)),
        resolve_model(acc, rest).modify == (acc.modify || any_modify(rest)),
    decreases rest.len(),
{
    if rest.len() == 0 {
    } else {
        lemma_resolve_flags_or(or_model(acc, rest[0]), rest.drop_first());
    }
}

/// Law: the resolved account identifier list is the concatenation of every
/// source's list in precedence order, never deduplicated or overwritten.
pub proof fn lemma_resolve_accounts_concat(acc: CliModel, rest: Seq<CliModel>)
    ensures
        resolve_model(acc, rest).account_ids == acc.account_ids + all_account_ids(rest),
    decreases rest.len(),
{
    if rest.len() == 0 {
        assert(acc.account_ids + all_account_ids(rest) =~= acc.account_ids);
    } else {
        lemma_resolve_accounts_concat(or_model(acc, rest[0]), rest.drop_first());
        assert((acc.account_ids + rest[0].account_ids) + all_account_ids(rest.drop_first())
            =~= acc.account_ids + (rest[0].account_ids + all_account_ids(rest.drop_first())));
    }
}

} // verus!
