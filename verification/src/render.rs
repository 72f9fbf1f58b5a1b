//! Ordering and joining the blocks of one destination file.
//!
//! Blocks are sorted by their position key in ascending lexicographic order;
//! blocks that share a key (in practice only those ranked at the sentinel)
//! keep their relative discovery order.  The sorted contents are joined with
//! one blank line between fragments, and the rendered file ends in exactly
//! one newline.

use vstd::prelude::*;
use vstd::string::{StrSliceExecFns, StringExecFns};
use crate::position::{lemma_lex_lt_asym, lemma_lex_lt_irrefl, lemma_lex_lt_trans, lex_lt,
    str_lex_lt};

verus! {

/// The separator between two rendered fragments: one blank line.
pub open spec fn blank_sep() -> Seq<char> {
    seq!['\n', '\n']
}

/// The single newline every rendered file ends with.
pub open spec fn newline() -> Seq<char> {
    seq!['\n']
}

/// The views of a sequence of (key, content) pairs.
pub open spec fn entry_views(s: Seq<(String, String)>) -> Seq<(Seq<char>, Seq<char>)> {
    s.map_values(|e: (String, String)| (e.0@, e.1@))
}

/// The contents of a sequence of entries, keys dropped.
pub open spec fn content_views(s: Seq<(Seq<char>, Seq<char>)>) -> Seq<Seq<char>> {
    s.map_values(|e: (Seq<char>, Seq<char>)| e.1)
}

/// Insert `e` behind every entry whose key is not greater than its own:
/// the insertion step of a stable insertion sort.
pub open spec fn insert_entry(
    e: (Seq<char>, Seq<char>),
    s: Seq<(Seq<char>, Seq<char>)>,
) -> Seq<(Seq<char>, Seq<char>)>
    decreases s.len(),
{
    if s.len() == 0 {
        seq![e]
    } else if lex_lt(e.0, s[0].0) {
        seq![e] + s
    } else {
        seq![s[0]] + insert_entry(e, s.drop_first())
    }
}

/// Stable sort of entries by key: each entry is inserted, in discovery
/// order, behind all entries with a key not greater than its own.
pub open spec fn sort_entries(s: Seq<(Seq<char>, Seq<char>)>) -> Seq<(Seq<char>, Seq<char>)>
    decreases s.len(),
{
    if s.len() == 0 {
        Seq::empty()
    } else {
        insert_entry(s.last(), sort_entries(s.drop_last()))
    }
}

/// Keys appear in non-decreasing lexicographic order.
pub open spec fn entries_sorted(s: Seq<(Seq<char>, Seq<char>)>) -> bool {
    forall|i: int, j: int| 0 <= i < j < s.len() ==> !lex_lt(#[trigger] s[j].0, #[trigger] s[i].0)
}

/// The index before which a new entry with key `k` comes to rest: the first
/// position holding a strictly greater key.
pub open spec fn boundary_idx(k: Seq<char>, s: Seq<(Seq<char>, Seq<char>)>) -> int
    decreases s.len(),
{
    if s.len() == 0 {
        0
    } else if lex_lt(k, s[0].0) {
        0
    } else {
        1 + boundary_idx(k, s.drop_first())
    }
}

pub proof fn lemma_boundary_idx(k: Seq<char>, s: Seq<(Seq<char>, Seq<char>)>)
    ensures
        0 <= boundary_idx(k, s) <= s.len(),
        forall|j: int| 0 <= j < boundary_idx(k, s) ==> !lex_lt(k, #[trigger] s[j].0),
        boundary_idx(k, s) < s.len() ==> lex_lt(k, s[boundary_idx(k, s)].0),
    decreases s.len(),
{
    if s.len() > 0 && !lex_lt(k, s[0].0) {
        lemma_boundary_idx(k, s.drop_first());
        let b = boundary_idx(k, s);
        assert forall|j: int| 0 <= j < b implies !lex_lt(k, #[trigger] s[j].0) by {
            if j > 0 {
                assert(s[j] == s.drop_first()[j - 1]);
            }
        }
        if b < s.len() {
            assert(s[b] == s.drop_first()[b - 1]);
        }
    }
}

/// Inserting an entry splices it in at its boundary index.
pub proof fn lemma_insert_is_splice(e: (Seq<char>, Seq<char>), s: Seq<(Seq<char>, Seq<char>)>)
    ensures
        insert_entry(e, s) == s.take(boundary_idx(e.0, s)) + seq![e] + s.skip(
            boundary_idx(e.0, s),
        ),
    decreases s.len(),
{
    let b = boundary_idx(e.0, s);
    if s.len() == 0 {
        assert(insert_entry(e, s) =~= s.take(0) + seq![e] + s.skip(0));
    } else if lex_lt(e.0, s[0].0) {
        assert(insert_entry(e, s) =~= s.take(0) + seq![e] + s.skip(0));
    } else {
        lemma_insert_is_splice(e, s.drop_first());
        let s1 = s.drop_first();
        let b1 = boundary_idx(e.0, s1);
        lemma_boundary_idx(e.0, s1);
        assert(b == 1 + b1);
        assert(insert_entry(e, s) == seq![s[0]] + (s1.take(b1) + seq![e] + s1.skip(b1)));
        assert forall|j: int| 0 <= j < s1.len() implies s1[j] == s[j + 1] by {}
        assert(seq![s[0]] + (s1.take(b1) + seq![e] + s1.skip(b1)) =~= s.take(b) + seq![e]
            + s.skip(b));
    }
}

/// Inserting into a sorted sequence keeps it sorted.
pub proof fn lemma_insert_entry_sorted(e: (Seq<char>, Seq<char>), s: Seq<(Seq<char>, Seq<char>)>)
    requires
        entries_sorted(s),
    ensures
        entries_sorted(insert_entry(e, s)),
{
    lemma_boundary_idx(e.0, s);
    lemma_insert_is_splice(e, s);
    let b = boundary_idx(e.0, s);
    let r = insert_entry(e, s);
    assert forall|i: int, j: int| 0 <= i < j < r.len() implies !lex_lt(
        #[trigger] r[j].0,
        #[trigger] r[i].0,
    ) by {
        if i < b {
            assert(r[i] == s[i]);
        } else if i == b {
            assert(r[i] == e);
        } else {
            assert(r[i] == s[i - 1]);
        }
        if j < b {
            assert(r[j] == s[j]);
        } else if j == b {
            assert(r[j] == e);
        } else {
            assert(r[j] == s[j - 1]);
        }
        if j == b {
            // r[j] is e and r[i] is s[i] with i < b: e is not less than s[i].
        } else if i == b && j > b {
            // r[i] is e, r[j] is s[j - 1] with j - 1 >= b.
            if lex_lt(r[j].0, e.0) {
                if b < s.len() {
                    // e < s[b] <= s[j - 1], so s[j - 1] < e is impossible.
                    if j - 1 > b {
                        if lex_lt(s[j - 1].0, s[b].0) {
                            assert(false);
                        }
                        lemma_lex_lt_trans(s[j - 1].0, e.0, s[b].0);
                    } else {
                        lemma_lex_lt_asym(e.0, s[b].0);
                    }
                }
                assert(false);
            }
        }
    }
}

/// Sorting sorts, keeps the length, and permutes the entries.
pub proof fn lemma_sort_entries_sorted(s: Seq<(Seq<char>, Seq<char>)>)
    ensures
        entries_sorted(sort_entries(s)),
        sort_entries(s).len() == s.len(),
    decreases s.len(),
{
    if s.len() > 0 {
        lemma_sort_entries_sorted(s.drop_last());
        lemma_insert_entry_sorted(s.last(), sort_entries(s.drop_last()));
        lemma_boundary_idx(s.last().0, sort_entries(s.drop_last()));
        lemma_insert_is_splice(s.last(), sort_entries(s.drop_last()));
    }
}

/// The predicate selecting the entries that carry key `k`.
pub open spec fn has_key(k: Seq<char>) -> spec_fn((Seq<char>, Seq<char>)) -> bool {
    |e: (Seq<char>, Seq<char>)| e.0 == k
}

/// Inserting adds exactly the inserted entry.
pub proof fn lemma_insert_entry_multiset(e: (Seq<char>, Seq<char>), s: Seq<(Seq<char>, Seq<char>)>)
    ensures
        insert_entry(e, s).to_multiset() == s.to_multiset().insert(e),
{
    broadcast use vstd::seq_lib::group_to_multiset_ensures;

    lemma_boundary_idx(e.0, s);
    lemma_insert_is_splice(e, s);
    let b = boundary_idx(e.0, s);
    vstd::seq_lib::lemma_multiset_commutative(s.take(b) + seq![e], s.skip(b));
    vstd::seq_lib::lemma_multiset_commutative(s.take(b), seq![e]);
    vstd::seq_lib::lemma_multiset_commutative(s.take(b), s.skip(b));
    assert(s.take(b) + s.skip(b) =~= s);
    assert(seq![e] =~= Seq::empty().push(e));
    assert(seq![e].to_multiset() == Seq::empty().push(e).to_multiset());
    assert(Seq::<(Seq<char>, Seq<char>)>::empty().push(e).to_multiset()
        =~= Seq::<(Seq<char>, Seq<char>)>::empty().to_multiset().insert(e));
    assert(insert_entry(e, s).to_multiset() =~= s.to_multiset().insert(e));
}

/// Sorting permutes the entries: none is lost, none is invented.
pub proof fn lemma_sort_entries_multiset(s: Seq<(Seq<char>, Seq<char>)>)
    ensures
        sort_entries(s).to_multiset() == s.to_multiset(),
    decreases s.len(),
{
    broadcast use vstd::seq_lib::group_to_multiset_ensures;

    if s.len() > 0 {
        lemma_sort_entries_multiset(s.drop_last());
        lemma_insert_entry_multiset(s.last(), sort_entries(s.drop_last()));
        assert(s =~= s.drop_last().push(s.last()));
        assert(s.drop_last().push(s.last()).to_multiset() =~= s.drop_last().to_multiset().insert(
            s.last(),
        ));
    }
}

/// Blocks whose keys are strictly ordered render in that order, wherever
/// they stood in discovery order: if block `i` has the smaller key, it
/// comes to rest strictly before block `j`.
pub proof fn lemma_order_independence(s: Seq<(Seq<char>, Seq<char>)>, i: int, j: int)
    requires
        0 <= i < s.len(),
        0 <= j < s.len(),
        lex_lt(s[i].0, s[j].0),
    ensures
        exists|p: int, q: int|
            0 <= p < q < sort_entries(s).len() && sort_entries(s)[p] == s[i] && sort_entries(s)[q]
                == s[j],
{
    broadcast use vstd::seq_lib::group_to_multiset_ensures;

    let t = sort_entries(s);
    lemma_sort_entries_sorted(s);
    lemma_sort_entries_multiset(s);
    assert(s.contains(s[i]));
    assert(s.contains(s[j]));
    assert(s.to_multiset().count(s[i]) > 0);
    assert(s.to_multiset().count(s[j]) > 0);
    assert(t.to_multiset().count(s[i]) > 0);
    assert(t.to_multiset().count(s[j]) > 0);
    assert(t.contains(s[i]));
    assert(t.contains(s[j]));
    let p = choose|p: int| 0 <= p < t.len() && t[p] == s[i];
    let q = choose|q: int| 0 <= q < t.len() && t[q] == s[j];
    if p == q {
        lemma_lex_lt_irrefl(s[i].0);
    }
    if q < p {
        assert(!lex_lt(t[p].0, t[q].0));
    }
    assert(0 <= p < q < t.len() && t[p] == s[i] && t[q] == s[j]);
}

/// No entry of `s` carries key `k`: filtering for `k` leaves nothing.
pub proof fn lemma_filter_no_match(s: Seq<(Seq<char>, Seq<char>)>, k: Seq<char>)
    requires
        forall|t: int| 0 <= t < s.len() ==> (#[trigger] s[t].0) != k,
    ensures
        s.filter(has_key(k)) == Seq::<(Seq<char>, Seq<char>)>::empty(),
    decreases s.len(),
{
    reveal(Seq::filter);
    if s.len() > 0 {
        assert forall|t: int| 0 <= t < s.drop_last().len() implies (#[trigger] s.drop_last()[t].0)
            != k by {
            assert(s.drop_last()[t] == s[t]);
        }
        lemma_filter_no_match(s.drop_last(), k);
        assert(!has_key(k)(s.last()));
    }
}

/// Every entry of `s` carries key `k`: filtering for `k` keeps everything.
pub proof fn lemma_filter_all_match(s: Seq<(Seq<char>, Seq<char>)>, k: Seq<char>)
    requires
        forall|t: int| 0 <= t < s.len() ==> (#[trigger] s[t].0) == k,
    ensures
        s.filter(has_key(k)) == s,
    decreases s.len(),
{
    reveal(Seq::filter);
    if s.len() > 0 {
        assert forall|t: int| 0 <= t < s.drop_last().len() implies (#[trigger] s.drop_last()[t].0)
            == k by {
            assert(s.drop_last()[t] == s[t]);
        }
        lemma_filter_all_match(s.drop_last(), k);
        assert(has_key(k)(s.last()));
        assert(s.drop_last().push(s.last()) =~= s);
    }
}

/// Inserting into a sorted sequence puts the new entry behind every older
/// entry with the same key: the `k`-keyed subsequence either gains the new
/// entry at its end or is untouched.
pub proof fn lemma_insert_entry_filter(
    e: (Seq<char>, Seq<char>),
    s: Seq<(Seq<char>, Seq<char>)>,
    k: Seq<char>,
)
    requires
        entries_sorted(s),
    ensures
        insert_entry(e, s).filter(has_key(k)) == if e.0 == k {
            s.filter(has_key(k)).push(e)
        } else {
            s.filter(has_key(k))
        },
{
    reveal(Seq::filter);
    broadcast use vstd::seq_lib::group_filter_ensures;

    lemma_boundary_idx(e.0, s);
    lemma_insert_is_splice(e, s);
    let b = boundary_idx(e.0, s);
    let pre = s.take(b);
    let post = s.skip(b);
    Seq::filter_distributes_over_add(pre + seq![e], post, has_key(k));
    Seq::filter_distributes_over_add(pre, seq![e], has_key(k));
    Seq::filter_distributes_over_add(pre, post, has_key(k));
    assert(pre + post =~= s);
    assert(seq![e].drop_last() =~= Seq::<(Seq<char>, Seq<char>)>::empty());
    if e.0 == k {
        assert(seq![e].filter(has_key(k)) =~= seq![e]);
        // No entry at or past the boundary still carries key `e.0`.
        assert forall|t: int| 0 <= t < post.len() implies (#[trigger] post[t].0) != k by {
            assert(post[t] == s[b + t]);
            if b + t > b {
                if lex_lt(s[b + t].0, s[b].0) {
                    assert(false);
                }
                if s[b + t].0 == k {
                    assert(lex_lt(k, s[b].0));
                    assert(!lex_lt(s[b + t].0, s[b].0));
                    assert(false);
                }
            } else {
                if s[b].0 == k {
                    lemma_lex_lt_irrefl(k);
                    assert(false);
                }
            }
        }
        lemma_filter_no_match(post, k);
        assert(insert_entry(e, s).filter(has_key(k)) =~= s.filter(has_key(k)).push(e));
    } else {
        assert(seq![e].last() == e);
        assert(!(has_key(k)(e)));
        assert(seq![e].filter(has_key(k)) == seq![e].drop_last().filter(has_key(k)));
        assert(seq![e].filter(has_key(k)) =~= Seq::<(Seq<char>, Seq<char>)>::empty());
        assert(insert_entry(e, s).filter(has_key(k)) =~= s.filter(has_key(k)));
    }
}

/// The sort is stable: for every key, the subsequence of entries carrying
/// that key is exactly the same, in the same order, before and after
/// sorting.  In particular sentinel-ranked blocks keep their relative
/// discovery order.
pub proof fn lemma_sort_entries_stable(s: Seq<(Seq<char>, Seq<char>)>, k: Seq<char>)
    ensures
        sort_entries(s).filter(has_key(k)) == s.filter(has_key(k)),
    decreases s.len(),
{
    reveal(Seq::filter);
    if s.len() > 0 {
        lemma_sort_entries_stable(s.drop_last(), k);
        lemma_sort_entries_sorted(s.drop_last());
        lemma_insert_entry_filter(s.last(), sort_entries(s.drop_last()), k);
    }
}

/// Sort the blocks of one destination by key, keeping the discovery order
/// of blocks that share a key.
pub fn sort_blocks(entries: Vec<(String, String)>) -> (r: Vec<(String, String)>)
    ensures
        entry_views(r@) == sort_entries(entry_views(entries@)),
{
    let ghost all = entry_views(entries@);
    let mut rest = entries;
    let mut out: Vec<(String, String)> = Vec::new();
    let ghost k: int = 0;
    proof {
        assert(entry_views(rest@) =~= all.skip(0));
        assert(entry_views(out@) =~= sort_entries(all.take(0)));
    }
    while rest.len() > 0
        invariant
            0 <= k <= all.len(),
            entry_views(rest@) =~= all.skip(k),
            entry_views(out@) == sort_entries(all.take(k)),
        decreases rest.len(),
    {
        let ghost rv = rest@;
        proof {
            assert(entry_views(rv).len() == rv.len());
            assert(all.skip(k).len() == all.len() - k);
            assert(k < all.len());
        }
        let e = rest.remove(0);
        proof {
            assert(rest@ =~= rv.drop_first());
            assert forall|t: int| 0 <= t < rest@.len() implies entry_views(rest@)[t]
                == all.skip(k + 1)[t] by {
                assert(entry_views(rest@)[t] == (rest@[t].0@, rest@[t].1@));
                assert(rest@[t] == rv[t + 1]);
                assert(entry_views(rv)[t + 1] == (rv[t + 1].0@, rv[t + 1].1@));
                assert(entry_views(rv)[t + 1] == all.skip(k)[t + 1]);
            }
            assert(entry_views(rest@) =~= all.skip(k + 1));
            assert(e == rv[0]);
            assert(entry_views(rv)[0] == (rv[0].0@, rv[0].1@));
            assert((e.0@, e.1@) == all.skip(k)[0]);
            assert((e.0@, e.1@) == all[k]);
        }
        let ghost ov = entry_views(out@);
        let mut j: usize = 0;
        while j < out.len() && !str_lex_lt(e.0.as_str(), out[j].0.as_str())
            invariant
                0 <= j <= out.len(),
                ov == entry_views(out@),
                forall|t: int| 0 <= t < j ==> !lex_lt(e.0@, #[trigger] ov[t].0),
            decreases out.len() - j,
        {
            proof {
                assert(ov[j as int] == (out@[j as int].0@, out@[j as int].1@));
            }
            j += 1;
        }
        proof {
            assert(j < out.len() ==> lex_lt(e.0@, ov[j as int].0));
            lemma_boundary_idx(e.0@, ov);
            if boundary_idx(e.0@, ov) < j {
                assert(lex_lt(e.0@, ov[boundary_idx(e.0@, ov)].0));
            }
            if (j as int) < boundary_idx(e.0@, ov) {
                assert(!lex_lt(e.0@, ov[j as int].0));
            }
            assert(j as int == boundary_idx(e.0@, ov));
            lemma_insert_is_splice((e.0@, e.1@), ov);
        }
        out.insert(j, e);
        proof {
            assert(entry_views(out@) =~= ov.take(j as int) + seq![(e.0@, e.1@)] + ov.skip(
                j as int,
            ));
            assert(all.take(k + 1).len() == k + 1);
            assert(all.take(k + 1).drop_last() =~= all.take(k));
            assert(all.take(k + 1).last() == all[k]);
            assert(entry_views(out@) == sort_entries(all.take(k + 1)));
        }
        proof {
            k = k + 1;
        }
    }
    proof {
        assert(all.take(k) =~= all);
    }
    out
}

/// The contents of a sequence of blocks joined with one blank line between
/// consecutive fragments.
pub open spec fn join_blank(cs: Seq<Seq<char>>) -> Seq<char>
    decreases cs.len(),
{
    if cs.len() == 0 {
        Seq::empty()
    } else if cs.len() == 1 {
        cs[0]
    } else {
        cs[0] + blank_sep() + join_blank(cs.drop_first())
    }
}

pub proof fn lemma_join_blank_push(cs: Seq<Seq<char>>, c: Seq<char>)
    ensures
        cs.len() == 0 ==> join_blank(cs.push(c)) == c,
        cs.len() > 0 ==> join_blank(cs.push(c)) == join_blank(cs) + blank_sep() + c,
    decreases cs.len(),
{
    let p = cs.push(c);
    if cs.len() == 0 {
        assert(p.len() == 1 && p[0] == c);
    } else if cs.len() == 1 {
        assert(p.drop_first() =~= seq![c]);
        assert(join_blank(seq![c]) == c);
        assert(join_blank(p) == cs[0] + blank_sep() + c);
    } else {
        lemma_join_blank_push(cs.drop_first(), c);
        assert(p.drop_first() =~= cs.drop_first().push(c));
        assert(join_blank(p) == cs[0] + blank_sep() + join_blank(cs.drop_first().push(c)));
        assert(join_blank(p) == cs[0] + blank_sep() + (join_blank(cs.drop_first()) + blank_sep()
            + c));
        assert(cs[0] + blank_sep() + (join_blank(cs.drop_first()) + blank_sep() + c) =~= (cs[0]
            + blank_sep() + join_blank(cs.drop_first())) + blank_sep() + c);
    }
}

/// Join the contents of the given blocks with one blank line between
/// consecutive fragments.
pub fn join_contents(blocks: &Vec<(String, String)>) -> (r: String)
    ensures
        r@ == join_blank(content_views(entry_views(blocks@))),
{
    let ghost cs = content_views(entry_views(blocks@));
    let mut out = String::new();
    let mut i: usize = 0;
    while i < blocks.len()
        invariant
            0 <= i <= blocks.len(),
            cs == content_views(entry_views(blocks@)),
            cs.len() == blocks@.len(),
            out@ == join_blank(cs.take(i as int)),
        decreases blocks.len() - i,
    {
        if i > 0 {
            out.append("\n\n");
            proof {
                reveal_strlit("\n\n");
                assert("\n\n"@ =~= blank_sep());
            }
        }
        out.append(blocks[i].1.as_str());
        proof {
            assert(cs[i as int] == blocks@[i as int].1@);
            lemma_join_blank_push(cs.take(i as int), cs[i as int]);
            assert(cs.take(i + 1) =~= cs.take(i as int).push(cs[i as int]));
        }
        i += 1;
    }
    proof {
        assert(cs.take(i as int) =~= cs);
    }
    out
}

} // verus!
