//! The blocks collected for one destination file.
//!
//! A `FileBlocks` accumulates, in discovery order, the blocks addressed to
//! one destination: those with an explicit position key and those without.
//! No two blocks of one destination may share an explicit key — that is
//! enforced at insertion time, so the failure points at the exact fragment
//! that introduced the duplicate.  Blocks without a key never conflict.

use vstd::prelude::*;
use vstd::string::{StrSliceExecFns, StringExecFns};
use crate::errors::{RunFault, TangleError};
use crate::position::{is_valid_key, lex_lt, sentinel_key, str_eq, Position};
use crate::render::{content_views, entry_views, has_key, insert_entry, join_blank, join_contents,
    lemma_filter_all_match, lemma_filter_no_match, lemma_order_independence,
    lemma_sort_entries_stable, newline, sort_blocks, sort_entries};

verus! {

/// The mathematical content of a `FileBlocks` value.
pub struct BlocksModel {
    /// Explicitly keyed blocks, (key, content), in discovery order.
    pub positioned: Seq<(Seq<char>, Seq<char>)>,
    /// Blocks without an explicit key, in discovery order.
    pub unpositioned: Seq<Seq<char>>,
}

impl BlocksModel {
    /// Every explicit key is valid, and no two blocks share one.
    pub open spec fn wf(self) -> bool {
        &&& forall|i: int|
            0 <= i < self.positioned.len() ==> is_valid_key(#[trigger] self.positioned[i].0)
        &&& forall|i: int, j: int|
            0 <= i < j < self.positioned.len() ==> (#[trigger] self.positioned[i]).0 != (
            #[trigger] self.positioned[j]).0
    }

    /// An explicit block with key `k` is already present.
    pub open spec fn has_position(self, k: Seq<char>) -> bool {
        exists|i: int| 0 <= i < self.positioned.len() && (#[trigger] self.positioned[i]).0 == k
    }

    /// All blocks as (key, content) entries: the explicit ones, then the
    /// unpositioned ones ranked at the sentinel key.
    pub open spec fn entries(self) -> Seq<(Seq<char>, Seq<char>)> {
        self.positioned + self.unpositioned.map_values(|c: Seq<char>| (sentinel_key(), c))
    }
}

/// The rendered content of one destination: block contents in sorted key
/// order, joined with one blank line between fragments, ending in exactly
/// one newline.
pub open spec fn render_spec(m: BlocksModel) -> Seq<char> {
    join_blank(content_views(sort_entries(m.entries()))) + newline()
}

/// The blocks seen so far for a single destination file.
#[derive(Debug)]
pub struct FileBlocks {
    /// Blocks with an explicit position key, in discovery order.
    pub positioned: Vec<(Position, String)>,
    /// Blocks without an explicit position key, in discovery order.
    pub unpositioned: Vec<String>,
}

impl View for FileBlocks {
    type V = BlocksModel;

    open spec fn view(&self) -> BlocksModel {
        BlocksModel {
            positioned: self.positioned@.map_values(|pc: (Position, String)| (pc.0@, pc.1@)),
            unpositioned: self.unpositioned@.map_values(|c: String| c@),
        }
    }
}

impl FileBlocks {
    pub open spec fn wf(&self) -> bool {
        self@.wf()
    }

    /// No blocks yet.
    pub fn new() -> (r: FileBlocks)
        ensures
            r@.positioned == Seq::<(Seq<char>, Seq<char>)>::empty(),
            r@.unpositioned == Seq::<Seq<char>>::empty(),
            r.wf(),
    {
        let r = FileBlocks { positioned: Vec::new(), unpositioned: Vec::new() };
        proof {
            assert(r@.positioned =~= Seq::<(Seq<char>, Seq<char>)>::empty());
            assert(r@.unpositioned =~= Seq::<Seq<char>>::empty());
        }
        r
    }

    /// Add one block.  A block without a key is always accepted.  A block
    /// with an explicit key is rejected, and the collection left untouched,
    /// if and only if an earlier block here already carries that key.
    pub fn add(&mut self, at: Option<Position>, content: String) -> (r: Result<(), TangleError>)
        ensures
            match at {
                None => {
                    &&& r is Ok
                    &&& final(self)@.positioned == old(self)@.positioned
                    &&& final(self)@.unpositioned == old(self)@.unpositioned.push(content@)
                },
                Some(p) => {
                    if old(self)@.has_position(p@) {
                        &&& r is Err
                        &&& r->Err_0@ == RunFault::DuplicatePosition(p@)
                        &&& *final(self) == *old(self)
                    } else {
                        &&& r is Ok
                        &&& final(self)@.positioned == old(self)@.positioned.push((p@, content@))
                        &&& final(self)@.unpositioned == old(self)@.unpositioned
                    }
                },
            },
            old(self).wf() && (at matches Some(p) ==> is_valid_key(p@)) ==> final(self).wf(),
    {
        match at {
            None => {
                let ghost uv = self@.unpositioned;
                self.unpositioned.push(content);
                proof {
                    assert(self@.unpositioned =~= uv.push(content@));
                    assert(self@.positioned =~= old(self)@.positioned);
                }
                Ok(())
            },
            Some(p) => {
                let ghost orig = *self;
                let mut i: usize = 0;
                while i < self.positioned.len()
                    invariant
                        0 <= i <= self.positioned.len(),
                        *self == orig,
                        orig == *old(self),
                        at == Some(p),
                        forall|t: int|
                            0 <= t < i ==> (#[trigger] self@.positioned[t]).0 != p@,
                    decreases self.positioned.len() - i,
                {
                    proof {
                        assert(self@.positioned[i as int] == (
                            self.positioned@[i as int].0@,
                            self.positioned@[i as int].1@,
                        ));
                    }
                    if str_eq(self.positioned[i].0.as_str(), p.as_str()) {
                        proof {
                            assert(old(self)@.positioned[i as int].0 == p@);
                            assert(old(self)@.has_position(p@));
                        }
                        let key = p.as_str().to_owned();
                        let err = TangleError::DuplicatePosition(key);
                        proof {
                            assert(err@ == RunFault::DuplicatePosition(p@));
                        }
                        return Err(err);
                    }
                    i += 1;
                }
                let ghost pv = self@.positioned;
                proof {
                    assert(!old(self)@.has_position(p@));
                }
                self.positioned.push((p, content));
                proof {
                    assert(self@.positioned =~= pv.push((p@, content@)));
                    assert(self@.unpositioned =~= old(self)@.unpositioned);
                }
                Ok(())
            },
        }
    }

    /// Render this destination's content.
    pub fn to_content(&self) -> (r: String)
        ensures
            r@ == render_spec(self@),
    {
        let mut entries: Vec<(String, String)> = Vec::new();
        let mut i: usize = 0;
        proof {
            assert(entry_views(entries@) =~= self@.positioned.take(0));
        }
        while i < self.positioned.len()
            invariant
                0 <= i <= self.positioned.len(),
                self@.positioned.len() == self.positioned@.len(),
                entries@.len() == i,
                entry_views(entries@).len() == i,
                entry_views(entries@) == self@.positioned.take(i as int),
            decreases self.positioned.len() - i,
        {
            let ghost ev = entry_views(entries@);
            let ghost pv = entries@;
            let key = self.positioned[i].0.as_str().to_owned();
            let body = self.positioned[i].1.clone();
            entries.push((key, body));
            proof {
                assert forall|t: int| 0 <= t < entries@.len() implies entry_views(entries@)[t]
                    == self@.positioned[t] by {
                    assert(entry_views(entries@)[t] == (entries@[t].0@, entries@[t].1@));
                    if t < i {
                        assert(entries@[t] == pv[t]);
                        assert(ev[t] == (pv[t].0@, pv[t].1@));
                        assert(ev[t] == self@.positioned.take(i as int)[t]);
                    } else {
                        assert(entries@[t] == (key, body));
                        assert(self@.positioned[t] == (
                            self.positioned@[t].0@,
                            self.positioned@[t].1@,
                        ));
                    }
                }
                assert(entry_views(entries@) =~= self@.positioned.take(i + 1));
            }
            i += 1;
        }
        let ghost sent = self@.unpositioned.map_values(|c: Seq<char>| (sentinel_key(), c));
        let mut j: usize = 0;
        proof {
            assert(self@.positioned.take(i as int) =~= self@.positioned);
            assert(entry_views(entries@) =~= self@.positioned + sent.take(0));
        }
        while j < self.unpositioned.len()
            invariant
                0 <= j <= self.unpositioned.len(),
                self@.unpositioned.len() == self.unpositioned@.len(),
                sent == self@.unpositioned.map_values(|c: Seq<char>| (sentinel_key(), c)),
                sent.len() == self@.unpositioned.len(),
                entries@.len() == self@.positioned.len() + j,
                entry_views(entries@).len() == self@.positioned.len() + j,
                entry_views(entries@) == self@.positioned + sent.take(j as int),
            decreases self.unpositioned.len() - j,
        {
            let ghost ev = entry_views(entries@);
            let ghost pv = entries@;
            let key = "m".to_owned();
            let body = self.unpositioned[j].clone();
            entries.push((key, body));
            proof {
                reveal_strlit("m");
                assert("m"@ =~= sentinel_key());
                assert(self@.unpositioned[j as int] == self.unpositioned@[j as int]@);
                assert(sent[j as int] == (sentinel_key(), self@.unpositioned[j as int]));
                let plen = self@.positioned.len() as int;
                assert forall|t: int| 0 <= t < entries@.len() implies entry_views(entries@)[t]
                    == (self@.positioned + sent.take(j + 1))[t] by {
                    assert(entry_views(entries@)[t] == (entries@[t].0@, entries@[t].1@));
                    if t < plen + j {
                        assert(entries@[t] == pv[t]);
                        assert(ev[t] == (pv[t].0@, pv[t].1@));
                        assert(ev[t] == (self@.positioned + sent.take(j as int))[t]);
                    } else {
                        assert(entries@[t] == (key, body));
                        assert((self@.positioned + sent.take(j + 1))[t] == sent[j as int]);
                    }
                }
                assert(entry_views(entries@) =~= self@.positioned + sent.take(j + 1));
            }
            j += 1;
        }
        proof {
            assert(sent.take(j as int) =~= sent);
            assert(entry_views(entries@) =~= self@.entries());
        }
        let sorted = sort_blocks(entries);
        let mut out = join_contents(&sorted);
        proof {
            assert(content_views(entry_views(sorted@)) == content_views(
                sort_entries(self@.entries()),
            ));
        }
        out.append("\n");
        proof {
            reveal_strlit("\n");
            assert("\n"@ =~= newline());
        }
        out
    }
}

/// Blocks with lexicographically ordered explicit keys render in that
/// order, wherever the two blocks stood in discovery order: the block with
/// the smaller key comes to rest strictly earlier.
pub proof fn lemma_explicit_key_order(m: BlocksModel, i: int, j: int)
    requires
        0 <= i < m.positioned.len(),
        0 <= j < m.positioned.len(),
        lex_lt(m.positioned[i].0, m.positioned[j].0),
    ensures
        exists|p: int, q: int|
            0 <= p < q < sort_entries(m.entries()).len() && sort_entries(m.entries())[p]
                == m.positioned[i] && sort_entries(m.entries())[q] == m.positioned[j],
{
    let s = m.entries();
    assert(s[i] == m.positioned[i]);
    assert(s[j] == m.positioned[j]);
    lemma_order_independence(s, i, j);
}

/// Sentinel-ranked blocks keep their relative discovery order: in the
/// render order, the entries at the sentinel key are exactly the
/// unpositioned blocks, in insertion order.
pub proof fn lemma_sentinel_stability(m: BlocksModel)
    requires
        m.wf(),
    ensures
        sort_entries(m.entries()).filter(has_key(sentinel_key())) == m.unpositioned.map_values(
            |c: Seq<char>| (sentinel_key(), c),
        ),
{
    let sent = m.unpositioned.map_values(|c: Seq<char>| (sentinel_key(), c));
    lemma_sort_entries_stable(m.entries(), sentinel_key());
    Seq::filter_distributes_over_add(m.positioned, sent, has_key(sentinel_key()));
    assert forall|t: int| 0 <= t < m.positioned.len() implies (#[trigger] m.positioned[t].0)
        != sentinel_key() by {
        assert(is_valid_key(m.positioned[t].0));
        if m.positioned[t].0 == sentinel_key() {
            assert(m.positioned[t].0[0] == 'm');
        }
    }
    lemma_filter_no_match(m.positioned, sentinel_key());
    assert forall|t: int| 0 <= t < sent.len() implies (#[trigger] sent[t].0) == sentinel_key() by {
        assert(sent[t] == (sentinel_key(), m.unpositioned[t]));
    }
    lemma_filter_all_match(sent, sentinel_key());
    assert(Seq::<(Seq<char>, Seq<char>)>::empty() + sent =~= sent);
}

/// Rendering is idempotent on an already-rendered file: feeding the output
/// of `render_spec` back in as one unpositioned fragment changes only the
/// trailing newline, never the content.
pub proof fn lemma_render_roundtrip(m: BlocksModel)
    ensures
        render_spec(
            (BlocksModel {
                positioned: Seq::<(Seq<char>, Seq<char>)>::empty(),
                unpositioned: seq![render_spec(m)],
            }),
        ) == render_spec(m) + newline(),
{
    let c = render_spec(m);
    let single = BlocksModel {
        positioned: Seq::<(Seq<char>, Seq<char>)>::empty(),
        unpositioned: seq![c],
    };
    assert(single.entries() =~= seq![(sentinel_key(), c)]);
    let e = (sentinel_key(), c);
    assert(seq![e].drop_last() =~= Seq::<(Seq<char>, Seq<char>)>::empty());
    assert(seq![e].last() == e);
    assert(sort_entries(Seq::<(Seq<char>, Seq<char>)>::empty()) == Seq::<
        (Seq<char>, Seq<char>),
    >::empty());
    assert(insert_entry(e, Seq::<(Seq<char>, Seq<char>)>::empty()) == seq![e]);
    assert(sort_entries(seq![e]) == seq![e]);
    assert(content_views(seq![e]) =~= seq![c]);
    assert(join_blank(seq![c]) == c);
}

} // verus!
