//! Reading documents and driving a run.
//!
//! Only fragments that are direct children of a document's root take part
//! in tangling: a fragment nested inside a block quote, a list item or any
//! other structural wrapper shows illustrative code and is never tangled.
//! This module folds a document's top-level fragments into the run-wide
//! `TangleMap`; the surrounding application discovers and reads documents
//! and writes the rendered files.

use vstd::prelude::*;
use crate::address::{at_value, first_idx, has_tangle_prefix, parse_address, resolve_address,
    AddrResolution, AddressOutcome};
use crate::aggregate::{agg_insert, lemma_agg_insert_wf, map_wf, opt_key, TangleMap};
use crate::blocks::BlocksModel;
use crate::errors::{RunFault, TangleError};
use crate::position::{is_valid_key, lemma_key_outcome_ok};

verus! {

/// One top-level fenced code block of a document: its info string, if it
/// has one, and its raw body, byte-exact as captured.
#[derive(Debug)]
pub struct CodeFragment {
    /// The info string after the opening fence, if any.
    pub lang: Option<String>,
    /// The fragment body, verbatim; whitespace-only content is preserved.
    pub value: String,
}

impl DeepView for CodeFragment {
    type V = (Option<Seq<char>>, Seq<char>);

    open spec fn deep_view(&self) -> (Option<Seq<char>>, Seq<char>) {
        (
            match self.lang {
                Some(l) => Some(l@),
                None => None,
            },
            self.value@,
        )
    }
}

/// The top-level fragments of a Markdown document: for each direct child
/// of the document root, in order, the fenced code block's (info string,
/// body) — or nothing, for a child of any other kind.  Fragments nested
/// deeper never appear here.
pub uninterp spec fn doc_fragments(text: Seq<char>) -> Seq<
    Option<(Option<Seq<char>>, Seq<char>)>,
>;

/// Relies on markdown::to_mdast: a document parses into a root node whose
/// direct children are the document's top-level blocks, a fenced code
/// block among them carrying its info string as `lang` and its raw body
/// as `value`; a document that yields no tree is treated as empty.
#[verifier::external_body]
fn scan_top_level(text: &str) -> (r: Vec<Option<CodeFragment>>)
    ensures
        r.deep_view() == doc_fragments(text@),
{
    match markdown::to_mdast(text, &markdown::ParseOptions::default()) {
        Ok(markdown::mdast::Node::Root(root)) => root
            .children
            .into_iter()
            .map(|child| match child {
                markdown::mdast::Node::Code(code) => Some(CodeFragment {
                    lang: code.lang,
                    value: code.value,
                }),
                _ => None,
            })
            .collect(),
        _ => Vec::new(),
    }
}

/// Fold one document fragment into the mapping: a non-code child, a
/// fragment without an info string and a non-tangle info string are
/// skipped; a malformed tangle address or key, or a duplicate position,
/// fails the run.
pub open spec fn frag_step(
    m: Seq<(Seq<char>, BlocksModel)>,
    f: Option<(Option<Seq<char>>, Seq<char>)>,
) -> Result<Seq<(Seq<char>, BlocksModel)>, RunFault> {
    match f {
        None => Ok(m),
        Some((lang, value)) => match lang {
            None => Ok(m),
            Some(l) => match resolve_address(l) {
                AddrResolution::NotTangle => Ok(m),
                AddrResolution::Bad(e) => Err(e),
                AddrResolution::Address(dest, at) => agg_insert(m, dest, at, value),
            },
        },
    }
}

/// Fold a document's fragments, in order, aborting on the first error.
pub open spec fn agg_frags(
    m0: Seq<(Seq<char>, BlocksModel)>,
    frags: Seq<Option<(Option<Seq<char>>, Seq<char>)>>,
) -> Result<Seq<(Seq<char>, BlocksModel)>, RunFault>
    decreases frags.len(),
{
    if frags.len() == 0 {
        Ok(m0)
    } else {
        match agg_frags(m0, frags.drop_last()) {
            Err(e) => Err(e),
            Ok(m) => frag_step(m, frags.last()),
        }
    }
}

/// What one document folds to, starting from an empty mapping.
pub open spec fn doc_outcome(text: Seq<char>) -> Result<
    Seq<(Seq<char>, BlocksModel)>,
    RunFault,
> {
    agg_frags(Seq::<(Seq<char>, BlocksModel)>::empty(), doc_fragments(text))
}

/// An explicit key handed out by the address grammar is always valid.
pub proof fn lemma_resolve_key_valid(l: Seq<char>)
    ensures
        match resolve_address(l) {
            AddrResolution::Address(d, at) => match at {
                Some(k) => is_valid_key(k),
                None => true,
            },
            _ => true,
        },
{
    if has_tangle_prefix(l) {
        let rest = l.skip(9);
        let q = first_idx(rest, '?');
        let query = if q == rest.len() {
            Seq::<char>::empty()
        } else {
            rest.skip(q + 1)
        };
        match at_value(query) {
            Some(v) => {
                lemma_key_outcome_ok(v);
            },
            None => {},
        }
    }
}

/// One successful fold step preserves well-formedness.
pub proof fn lemma_frag_step_wf(
    m: Seq<(Seq<char>, BlocksModel)>,
    f: Option<(Option<Seq<char>>, Seq<char>)>,
)
    requires
        map_wf(m),
    ensures
        frag_step(m, f) matches Ok(v) ==> map_wf(v),
{
    match f {
        Some((lang, value)) => match lang {
            Some(l) => match resolve_address(l) {
                AddrResolution::Address(dest, at) => {
                    lemma_resolve_key_valid(l);
                    lemma_agg_insert_wf(m, dest, at, value);
                },
                _ => {},
            },
            None => {},
        },
        None => {},
    }
}

/// An error reached after any prefix of the fragments is the error of the
/// whole fold.
pub proof fn lemma_agg_frags_stops(
    m0: Seq<(Seq<char>, BlocksModel)>,
    frags: Seq<Option<(Option<Seq<char>>, Seq<char>)>>,
    k: int,
)
    requires
        0 <= k <= frags.len(),
        agg_frags(m0, frags.take(k)) is Err,
    ensures
        agg_frags(m0, frags) == agg_frags(m0, frags.take(k)),
    decreases frags.len() - k,
{
    if k == frags.len() {
        assert(frags.take(k) =~= frags);
    } else {
        assert(frags.take(k + 1).drop_last() =~= frags.take(k));
        assert(agg_frags(m0, frags.take(k + 1)) == agg_frags(m0, frags.take(k)));
        lemma_agg_frags_stops(m0, frags, k + 1);
    }
}

/// Parse one document and fold its top-level tangle fragments into `m`:
/// exactly `agg_frags` of the document's fragments.  On an error the run
/// is aborted and the partly-folded mapping is discarded.
pub fn add_document(m: TangleMap, text: &str) -> (r: Result<TangleMap, TangleError>)
    requires
        m.wf(),
    ensures
        match agg_frags(m@, doc_fragments(text@)) {
            Ok(v) => r matches Ok(m2) && m2@ == v && m2.wf(),
            Err(f) => r matches Err(e) && e@ == f,
        },
{
    let ghost m0 = m@;
    let mut map = m;
    let mut frags = scan_top_level(text);
    let ghost all = doc_fragments(text@);
    let ghost k: int = 0;
    proof {
        assert(frags.deep_view() =~= all.skip(0));
        assert(all.take(0) =~= Seq::<Option<(Option<Seq<char>>, Seq<char>)>>::empty());
    }
    while frags.len() > 0
        invariant
            0 <= k <= all.len(),
            m0 == m@,
            all == doc_fragments(text@),
            frags.deep_view() =~= all.skip(k),
            agg_frags(m0, all.take(k)) == Ok::<Seq<(Seq<char>, BlocksModel)>, RunFault>(map@),
            map.wf(),
        decreases frags.len(),
    {
        let ghost rv = frags.deep_view();
        let ghost fv = frags@;
        proof {
            assert(rv.len() == fv.len());
            assert(all.skip(k).len() == all.len() - k);
        }
        let f = frags.remove(0);
        proof {
            assert forall|t: int| 0 <= t < frags@.len() implies frags.deep_view()[t] == all.skip(
                k + 1,
            )[t] by {
                assert(frags.deep_view()[t] == frags@[t].deep_view());
                assert(frags@[t] == fv[t + 1]);
                assert(rv[t + 1] == fv[t + 1].deep_view());
                assert(rv[t + 1] == all.skip(k)[t + 1]);
            }
            assert(frags.deep_view() =~= all.skip(k + 1));
            assert(f == fv[0]);
            assert(rv[0] == fv[0].deep_view());
            assert(f.deep_view() == all.skip(k)[0]);
            assert(f.deep_view() == all[k]);
            assert(all.take(k + 1).drop_last() =~= all.take(k));
            assert(all.take(k + 1).last() == all[k]);
        }
        match f {
            None => {
                proof {
                    assert(frag_step(map@, all[k]) == Ok::<
                        Seq<(Seq<char>, BlocksModel)>,
                        RunFault,
                    >(map@));
                }
            },
            Some(cf) => {
                match cf.lang {
                    None => {
                        proof {
                            assert(all[k] == Some((None::<Seq<char>>, cf.value@)));
                        }
                    },
                    Some(l) => {
                        proof {
                            assert(all[k] == Some((Some(l@), cf.value@)));
                        }
                        match parse_address(l.as_str()) {
                            AddressOutcome::NotTangle => {
                                proof {
                                    assert(resolve_address(l@) is NotTangle);
                                }
                            },
                            AddressOutcome::Bad(e) => {
                                proof {
                                    assert(frag_step(map@, all[k]) == Err::<
                                        Seq<(Seq<char>, BlocksModel)>,
                                        RunFault,
                                    >(e@));
                                    assert(agg_frags(m0, all.take(k + 1)) == Err::<
                                        Seq<(Seq<char>, BlocksModel)>,
                                        RunFault,
                                    >(e@));
                                    lemma_agg_frags_stops(m0, all, k + 1);
                                }
                                return Err(e);
                            },
                            AddressOutcome::Tangle(dest, at) => {
                                let ghost at0 = opt_key(at);
                                proof {
                                    assert(resolve_address(l@) == AddrResolution::Address(
                                        dest@,
                                        at0,
                                    ));
                                    lemma_frag_step_wf(map@, all[k]);
                                }
                                match map.insert_block(dest, at, cf.value) {
                                    Ok(()) => {},
                                    Err(e) => {
                                        proof {
                                            assert(agg_frags(m0, all.take(k + 1)) == Err::<
                                                Seq<(Seq<char>, BlocksModel)>,
                                                RunFault,
                                            >(e@));
                                            lemma_agg_frags_stops(m0, all, k + 1);
                                        }
                                        return Err(e);
                                    },
                                }
                            },
                        }
                    },
                }
            },
        }
        proof {
            assert(agg_frags(m0, all.take(k + 1)) == Ok::<
                Seq<(Seq<char>, BlocksModel)>,
                RunFault,
            >(map@));
            k = k + 1;
        }
    }
    proof {
        assert(all.take(k) =~= all);
    }
    Ok(map)
}

/// Input and output directories of one tangle run.
#[derive(Debug)]
pub struct Lit {
    /// The directory the documents are read from.
    pub input: String,
    /// The directory the tangled files are written under.
    pub output: String,
}

impl Lit {
    /// A run reading from `input` and writing under `output`.
    pub fn new(input: String, output: String) -> (r: Lit)
        ensures
            r.input@ == input@,
            r.output@ == output@,
    {
        Lit { input, output }
    }

    /// Parse one Markdown document and group its tangle fragments by
    /// destination path: exactly the fold of the document's top-level
    /// fragments into an empty mapping, aborted by the first malformed
    /// address, invalid key or duplicate position.
    pub fn parse_markdown(markdown_text: &str) -> (r: Result<TangleMap, TangleError>)
        ensures
            match doc_outcome(markdown_text@) {
                Ok(v) => r matches Ok(m) && m@ == v && m.wf(),
                Err(f) => r matches Err(e) && e@ == f,
            },
    {
        let map = TangleMap::new();
        add_document(map, markdown_text)
    }
}

} // verus!
