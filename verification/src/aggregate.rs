//! Grouping blocks by destination path across all input documents.
//!
//! A `TangleMap` accumulates every recognized block of a run into one
//! insertion-ordered mapping from destination path to `FileBlocks`.  The
//! duplicate-key check is scoped per destination: the same position key may
//! be reused for two different destination paths without conflict, and a
//! destination exists in the map only because at least one block was
//! inserted for it.

use vstd::prelude::*;
use vstd::string::{StrSliceExecFns, StringExecFns};
use crate::blocks::{BlocksModel, FileBlocks};
use crate::errors::{RunFault, TangleError};
use crate::position::{is_valid_key, str_eq, Position};

verus! {

/// The first index holding destination `p`, or the length if `p` is new.
pub open spec fn map_find(m: Seq<(Seq<char>, BlocksModel)>, p: Seq<char>) -> int
    decreases m.len(),
{
    if m.len() == 0 {
        0
    } else if m[0].0 == p {
        0
    } else {
        1 + map_find(m.drop_first(), p)
    }
}

pub proof fn lemma_map_find(m: Seq<(Seq<char>, BlocksModel)>, p: Seq<char>)
    ensures
        0 <= map_find(m, p) <= m.len(),
        forall|j: int| 0 <= j < map_find(m, p) ==> (#[trigger] m[j]).0 != p,
        map_find(m, p) < m.len() ==> m[map_find(m, p)].0 == p,
    decreases m.len(),
{
    if m.len() > 0 && m[0].0 != p {
        lemma_map_find(m.drop_first(), p);
        let f = map_find(m, p);
        assert forall|j: int| 0 <= j < f implies (#[trigger] m[j]).0 != p by {
            if j > 0 {
                assert(m[j] == m.drop_first()[j - 1]);
            }
        }
        if f < m.len() {
            assert(m[f] == m.drop_first()[f - 1]);
        }
    }
}

/// `k` is where destination `p` first occurs (or the length, if nowhere):
/// then `k` is `map_find`.
pub proof fn lemma_map_find_is(m: Seq<(Seq<char>, BlocksModel)>, p: Seq<char>, k: int)
    requires
        0 <= k <= m.len(),
        forall|j: int| 0 <= j < k ==> (#[trigger] m[j]).0 != p,
        k < m.len() ==> m[k].0 == p,
    ensures
        map_find(m, p) == k,
{
    lemma_map_find(m, p);
    let f = map_find(m, p);
    if f < k {
        assert(m[f].0 != p);
    }
    if k < f {
        assert(m[k].0 != p);
    }
}

/// Destination paths are pairwise distinct, every collection is
/// well-formed, and every destination holds at least one block.
pub open spec fn map_wf(m: Seq<(Seq<char>, BlocksModel)>) -> bool {
    &&& forall|i: int, j: int|
        0 <= i < j < m.len() ==> (#[trigger] m[i]).0 != (#[trigger] m[j]).0
    &&& forall|i: int| 0 <= i < m.len() ==> (#[trigger] m[i]).1.wf()
    &&& forall|i: int|
        0 <= i < m.len() ==> (#[trigger] m[i]).1.positioned.len() + m[i].1.unpositioned.len() >= 1
}

/// The collection a destination starts with: its first block.
pub open spec fn singleton_blocks(at: Option<Seq<char>>, content: Seq<char>) -> BlocksModel {
    match at {
        None => BlocksModel {
            positioned: Seq::<(Seq<char>, Seq<char>)>::empty(),
            unpositioned: seq![content],
        },
        Some(k) => BlocksModel {
            positioned: seq![(k, content)],
            unpositioned: Seq::<Seq<char>>::empty(),
        },
    }
}

/// Fold one block into the mapping.  A new destination is appended; an
/// existing one gains the block — unless the block carries an explicit key
/// already present for that destination, which fails the whole run.
pub open spec fn agg_insert(
    m: Seq<(Seq<char>, BlocksModel)>,
    p: Seq<char>,
    at: Option<Seq<char>>,
    content: Seq<char>,
) -> Result<Seq<(Seq<char>, BlocksModel)>, RunFault> {
    let i = map_find(m, p);
    if i == m.len() {
        Ok(m.push((p, singleton_blocks(at, content))))
    } else {
        let b = m[i].1;
        match at {
            None => Ok(
                m.update(
                    i,
                    (
                        p,
                        BlocksModel {
                            positioned: b.positioned,
                            unpositioned: b.unpositioned.push(content),
                        },
                    ),
                ),
            ),
            Some(k) => if b.has_position(k) {
                Err(RunFault::DuplicatePosition(k))
            } else {
                Ok(
                    m.update(
                        i,
                        (
                            p,
                            BlocksModel {
                                positioned: b.positioned.push((k, content)),
                                unpositioned: b.unpositioned,
                            },
                        ),
                    ),
                )
            },
        }
    }
}

/// The explicit key a block carries, if any.
pub open spec fn opt_key(at: Option<Position>) -> Option<Seq<char>> {
    match at {
        Some(p) => Some(p@),
        None => None,
    }
}

/// A successful insertion preserves well-formedness.
pub proof fn lemma_agg_insert_wf(
    m: Seq<(Seq<char>, BlocksModel)>,
    p: Seq<char>,
    at: Option<Seq<char>>,
    content: Seq<char>,
)
    requires
        map_wf(m),
        at matches Some(k) ==> is_valid_key(k),
    ensures
        agg_insert(m, p, at, content) matches Ok(v) ==> map_wf(v),
{
    lemma_map_find(m, p);
    let i = map_find(m, p);
    if agg_insert(m, p, at, content) is Ok {
        let v = agg_insert(m, p, at, content)->Ok_0;
        if i == m.len() {
            assert forall|a: int, b: int| 0 <= a < b < v.len() implies (#[trigger] v[a]).0 != (
            #[trigger] v[b]).0 by {
                if b < m.len() {
                } else {
                    assert(v[b].0 == p);
                    assert(v[a] == m[a]);
                }
            }
            assert(map_wf(v));
        } else {
            let b0 = m[i].1;
            assert forall|a: int| 0 <= a < v.len() implies (#[trigger] v[a]).1.wf() by {
                if a != i {
                    assert(v[a] == m[a]);
                } else {
                    match at {
                        None => {
                            assert(v[i].1.positioned == b0.positioned);
                        },
                        Some(k) => {
                            assert(!b0.has_position(k));
                            let np = v[i].1.positioned;
                            assert(np == b0.positioned.push((k, content)));
                            assert forall|x: int, y: int| 0 <= x < y < np.len() implies (
                            #[trigger] np[x]).0 != (#[trigger] np[y]).0 by {
                                if y == np.len() - 1 {
                                    assert(np[y].0 == k);
                                    assert(np[x] == b0.positioned[x]);
                                    if np[x].0 == k {
                                        assert(b0.has_position(k));
                                    }
                                } else {
                                    assert(np[x] == b0.positioned[x]);
                                    assert(np[y] == b0.positioned[y]);
                                }
                            }
                            assert forall|x: int| 0 <= x < np.len() implies is_valid_key(
                                #[trigger] np[x].0,
                            ) by {
                                if x < np.len() - 1 {
                                    assert(np[x] == b0.positioned[x]);
                                }
                            }
                        },
                    }
                }
            }
            assert(map_wf(v));
        }
    }
}

/// The duplicate check is scoped per destination path: after a block with
/// key `k` is accepted for `p1`, a block with the same key for a different
/// destination `p2` is still accepted whenever it would have been before.
pub proof fn lemma_duplicate_scoped(
    m: Seq<(Seq<char>, BlocksModel)>,
    p1: Seq<char>,
    p2: Seq<char>,
    k: Seq<char>,
    c1: Seq<char>,
    c2: Seq<char>,
)
    requires
        p1 != p2,
        agg_insert(m, p1, Some(k), c1) is Ok,
        agg_insert(m, p2, Some(k), c2) is Ok,
    ensures
        agg_insert(agg_insert(m, p1, Some(k), c1)->Ok_0, p2, Some(k), c2) is Ok,
{
    let m1 = agg_insert(m, p1, Some(k), c1)->Ok_0;
    lemma_map_find(m, p1);
    lemma_map_find(m, p2);
    let i1 = map_find(m, p1);
    let i2 = map_find(m, p2);
    if i1 == m.len() {
        if i2 == m.len() {
            assert forall|j: int| 0 <= j < m1.len() implies (#[trigger] m1[j]).0 != p2 by {
                if j < m.len() {
                    assert(m1[j] == m[j]);
                } else {
                    assert(m1[j].0 == p1);
                }
            }
            lemma_map_find_is(m1, p2, m1.len() as int);
        } else {
            assert forall|j: int| 0 <= j < i2 implies (#[trigger] m1[j]).0 != p2 by {
                assert(m1[j] == m[j]);
            }
            assert(m1[i2] == m[i2]);
            lemma_map_find_is(m1, p2, i2);
        }
    } else {
        if i2 == m.len() {
            assert forall|j: int| 0 <= j < m1.len() implies (#[trigger] m1[j]).0 != p2 by {
                if j == i1 {
                    assert(m1[j].0 == p1);
                } else {
                    assert(m1[j] == m[j]);
                }
            }
            lemma_map_find_is(m1, p2, m1.len() as int);
        } else {
            assert(m[i1].0 == p1 && m[i2].0 == p2);
            assert(i1 != i2);
            assert forall|j: int| 0 <= j < i2 implies (#[trigger] m1[j]).0 != p2 by {
                if j == i1 {
                    assert(m1[j].0 == p1);
                } else {
                    assert(m1[j] == m[j]);
                }
            }
            assert(m1[i2] == m[i2]);
            lemma_map_find_is(m1, p2, i2);
        }
    }
}

/// One rendered output file: its relative destination path and content.
#[derive(Debug)]
pub struct TangledFile {
    /// The destination path, relative to the output directory.
    pub path: String,
    /// The rendered file content.
    pub content: String,
}

/// All blocks of a run, grouped by destination path in order of first
/// appearance.
#[derive(Debug)]
pub struct TangleMap {
    entries: Vec<(String, FileBlocks)>,
}

impl View for TangleMap {
    type V = Seq<(Seq<char>, BlocksModel)>;

    closed spec fn view(&self) -> Seq<(Seq<char>, BlocksModel)> {
        self.entries@.map_values(|e: (String, FileBlocks)| (e.0@, e.1@))
    }
}

impl TangleMap {
    pub open spec fn wf(&self) -> bool {
        map_wf(self@)
    }

    /// An empty mapping.
    pub fn new() -> (r: TangleMap)
        ensures
            r@ == Seq::<(Seq<char>, BlocksModel)>::empty(),
            r.wf(),
    {
        let r = TangleMap { entries: Vec::new() };
        proof {
            assert(r@ =~= Seq::<(Seq<char>, BlocksModel)>::empty());
        }
        r
    }

    /// The number of distinct destination paths seen so far.
    pub fn len(&self) -> (r: usize)
        ensures
            r == self@.len(),
    {
        self.entries.len()
    }

    /// The index at which `path` sits, or the length if it is new.
    fn find_entry(&self, path: &str) -> (r: usize)
        ensures
            r as int == map_find(self@, path@),
            r <= self@.len(),
            self@.len() == self.entries@.len(),
    {
        let mut i: usize = 0;
        while i < self.entries.len()
            invariant
                0 <= i <= self.entries.len(),
                self@.len() == self.entries@.len(),
                forall|t: int| 0 <= t < i ==> (#[trigger] self@[t]).0 != path@,
            decreases self.entries.len() - i,
        {
            proof {
                assert(self@[i as int] == (self.entries@[i as int].0@, self.entries@[i as int].1@));
            }
            if str_eq(self.entries[i].0.as_str(), path) {
                proof {
                    lemma_map_find_is(self@, path@, i as int);
                }
                return i;
            }
            i += 1;
        }
        proof {
            lemma_map_find_is(self@, path@, self@.len() as int);
        }
        self.entries.len()
    }

    /// The blocks collected for `path`, if any.
    pub fn get(&self, path: &str) -> (r: Option<&FileBlocks>)
        ensures
            match r {
                Some(b) => map_find(self@, path@) < self@.len() && b@ == self@[map_find(
                    self@,
                    path@,
                )].1,
                None => map_find(self@, path@) == self@.len(),
            },
    {
        let i = self.find_entry(path);
        if i < self.entries.len() {
            proof {
                assert(self@[i as int] == (self.entries@[i as int].0@, self.entries@[i as int].1@));
            }
            Some(&self.entries[i].1)
        } else {
            None
        }
    }

    /// Whether any block was seen for `path`.
    pub fn contains_key(&self, path: &str) -> (r: bool)
        ensures
            r == (map_find(self@, path@) < self@.len()),
    {
        let i = self.find_entry(path);
        i < self.entries.len()
    }

    /// Fold one block into the mapping: exactly `agg_insert`.
    pub fn insert_block(&mut self, path: String, at: Option<Position>, content: String) -> (r:
        Result<(), TangleError>)
        ensures
            match agg_insert(old(self)@, path@, opt_key(at), content@) {
                Ok(v) => r is Ok && final(self)@ == v,
                Err(f) => {
                    &&& r is Err
                    &&& r->Err_0@ == f
                    &&& final(self)@ == old(self)@
                },
            },
    {
        let ghost at0 = at;
        let ghost m0 = self@;
        let i = self.find_entry(path.as_str());
        proof {
            lemma_map_find(m0, path@);
        }
        if i == self.entries.len() {
            let mut blocks = FileBlocks::new();
            let res = blocks.add(at, content);
            proof {
                assert(!(BlocksModel {
                    positioned: Seq::<(Seq<char>, Seq<char>)>::empty(),
                    unpositioned: Seq::<Seq<char>>::empty(),
                }).has_position(match at0 {
                    Some(p) => p@,
                    None => Seq::<char>::empty(),
                }));
            }
            match res {
                Ok(()) => {
                    let ghost pre = self@;
                    self.entries.push((path, blocks));
                    proof {
                        assert(blocks@ =~= singleton_blocks(opt_key(at0), content@)) by {
                            match at0 {
                                None => {
                                    assert(blocks@.unpositioned =~= seq![content@]);
                                },
                                Some(p) => {
                                    assert(blocks@.positioned =~= seq![(p@, content@)]);
                                },
                            }
                        }
                        assert(self@ =~= pre.push((path@, blocks@)));
                    }
                    Ok(())
                },
                Err(e) => {
                    // Unreachable: a fresh collection has no duplicate key.
                    proof {
                        assert(false);
                    }
                    Err(e)
                },
            }
        } else {
            let mut pair = self.entries.remove(i);
            let ghost removed = self@;
            let ghost b0 = pair.1@;
            proof {
                assert(m0[i as int] == (self.entries@.insert(i as int, (pair.0, pair.1))
                    [i as int].0@, pair.1@)) by {
                    assert(m0[i as int] == (pair.0@, pair.1@));
                }
                assert(b0 == m0[i as int].1);
            }
            let res = pair.1.add(at, content);
            self.entries.insert(i, pair);
            proof {
                assert forall|t: int| 0 <= t < self@.len() && t != i implies #[trigger] self@[t]
                    == m0[t] by {
                    if t < i {
                        assert(self.entries@[t] == old(self).entries@[t]);
                    } else {
                        assert(self.entries@[t] == old(self).entries@[t]);
                    }
                }
            }
            match res {
                Ok(()) => {
                    proof {
                        let v = agg_insert(m0, path@, opt_key(at0), content@)->Ok_0;
                        assert(self@[i as int].0 == path@);
                        assert(self@ =~= v);
                    }
                    Ok(())
                },
                Err(e) => {
                    proof {
                        assert(self@[i as int].0 == path@);
                        assert(self@[i as int].1 == b0);
                        assert(self@ =~= m0);
                    }
                    Err(e)
                },
            }
        }
    }

    /// Render every destination, in order of first appearance.
    pub fn render_all(self) -> (r: Vec<TangledFile>)
        ensures
            r@.len() == self@.len(),
            forall|t: int|
                0 <= t < r@.len() ==> (#[trigger] r@[t]).path@ == self@[t].0 && r@[t].content@
                    == crate::blocks::render_spec(self@[t].1),
    {
        let ghost m0 = self@;
        let mut rest = self.entries;
        let mut out: Vec<TangledFile> = Vec::new();
        let ghost k: int = 0;
        while rest.len() > 0
            invariant
                0 <= k <= m0.len(),
                k == out@.len(),
                rest@.len() == m0.len() - k,
                forall|t: int|
                    0 <= t < rest@.len() ==> (#[trigger] rest@[t].0@, rest@[t].1@) == m0[k + t],
                forall|t: int|
                    0 <= t < k ==> (#[trigger] out@[t]).path@ == m0[t].0 && out@[t].content@
                        == crate::blocks::render_spec(m0[t].1),
            decreases rest.len(),
        {
            let pair = rest.remove(0);
            let content = pair.1.to_content();
            out.push(TangledFile { path: pair.0, content });
            proof {
                k = k + 1;
            }
        }
        out
    }
}

} // verus!
