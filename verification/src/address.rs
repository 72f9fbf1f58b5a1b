//! The tangle address grammar.
//!
//! A fragment's info string names its destination only when it uses the
//! dedicated scheme: `tangle://<path>[?<query>]`.  Any other info string
//! means the fragment is ordinary illustrative code and is skipped, never
//! an error.  A string that does carry the tangle scheme but is malformed
//! is a configuration error that aborts the whole run.
//!
//! The grammar, spelled out (one explicit, documented policy):
//! - the scheme letters are matched without regard to ASCII case, and the
//!   scheme must be followed by `://`; a tangle-schemed string without the
//!   two slashes has no path and is rejected;
//! - everything between `://` and the first `?` (or the end) is the
//!   destination path, taken verbatim: it must be non-empty, must not
//!   begin or end with a separator (no absolute or UNC-like paths), and
//!   must not contain a double separator;
//! - the slot between `://` and the first separator doubles as the URL
//!   authority slot; the engine reads it as the first path segment, which
//!   is unambiguous only while it carries no authority marker.  A user or
//!   host marker there (`@` or `:`) means the address names an authority,
//!   which tangle addresses must not;
//! - the query is split at `&` into pairs, a pair at its first `=` into
//!   key and value, both verbatim; the first pair whose key is `at` names
//!   the explicit position key, which must then pass validation — an
//!   invalid explicit key is never silently coerced to the default.

use vstd::prelude::*;
use vstd::string::{StrSliceExecFns, StringExecFns};
use crate::errors::{RunFault, TangleError};
use crate::position::{is_valid_key, key_outcome, Position};

verus! {

/// The index of the first occurrence of `c` in `s`, or `s.len()`.
pub open spec fn first_idx(s: Seq<char>, c: char) -> int
    decreases s.len(),
{
    if s.len() == 0 {
        0
    } else if s[0] == c {
        0
    } else {
        1 + first_idx(s.drop_first(), c)
    }
}

pub proof fn lemma_first_idx(s: Seq<char>, c: char)
    ensures
        0 <= first_idx(s, c) <= s.len(),
        forall|j: int| 0 <= j < first_idx(s, c) ==> s[j] != c,
        first_idx(s, c) < s.len() ==> s[first_idx(s, c)] == c,
    decreases s.len(),
{
    if s.len() > 0 && s[0] != c {
        lemma_first_idx(s.drop_first(), c);
        let f = first_idx(s, c);
        assert forall|j: int| 0 <= j < f implies s[j] != c by {
            if j > 0 {
                assert(s[j] == s.drop_first()[j - 1]);
            }
        }
        if f < s.len() {
            assert(s[f] == s.drop_first()[f - 1]);
        }
    }
}

/// `k` is where the first occurrence of `c` lies (or the length, if none):
/// then `k` is the first index.
pub proof fn lemma_first_idx_is(s: Seq<char>, c: char, k: int)
    requires
        0 <= k <= s.len(),
        forall|j: int| 0 <= j < k ==> s[j] != c,
        k < s.len() ==> s[k] == c,
    ensures
        first_idx(s, c) == k,
{
    lemma_first_idx(s, c);
    let f = first_idx(s, c);
    if f < k {
        assert(s[f] != c);
    }
    if k < f {
        assert(s[k] != c);
    }
}

/// The string starts with the tangle scheme and its colon, the scheme
/// letters matched without regard to ASCII case.
pub open spec fn has_tangle_scheme(s: Seq<char>) -> bool {
    &&& s.len() >= 7
    &&& (s[0] == 't' || s[0] == 'T')
    &&& (s[1] == 'a' || s[1] == 'A')
    &&& (s[2] == 'n' || s[2] == 'N')
    &&& (s[3] == 'g' || s[3] == 'G')
    &&& (s[4] == 'l' || s[4] == 'L')
    &&& (s[5] == 'e' || s[5] == 'E')
    &&& s[6] == ':'
}

/// The string starts with the tangle scheme, its colon and both slashes.
pub open spec fn has_tangle_prefix(s: Seq<char>) -> bool {
    &&& has_tangle_scheme(s)
    &&& s.len() >= 9
    &&& s[7] == '/'
    &&& s[8] == '/'
}

/// The destination path is a plain relative file path: non-empty, no
/// leading, trailing or doubled separator.
pub open spec fn path_shape_ok(dest: Seq<char>) -> bool {
    &&& dest.len() > 0
    &&& dest[0] != '/'
    &&& dest[dest.len() - 1] != '/'
    &&& !(exists|i: int|
        0 <= i < dest.len() - 1 && (#[trigger] dest[i]) == '/' && dest[i + 1] == '/')
}

/// The authority slot — the text up to the first separator — carries a
/// user or port marker, so the address names a non-empty authority.
pub open spec fn has_authority_marker(dest: Seq<char>) -> bool {
    exists|i: int| 0 <= i < first_idx(dest, '/') && (dest[i] == '@' || dest[i] == ':')
}

/// The key of one `key[=value]` query pair.
pub open spec fn pair_key(p: Seq<char>) -> Seq<char> {
    p.take(first_idx(p, '='))
}

/// The value of one `key[=value]` query pair; a pair without `=` has the
/// empty value.
pub open spec fn pair_value(p: Seq<char>) -> Seq<char> {
    if first_idx(p, '=') == p.len() {
        Seq::empty()
    } else {
        p.skip(first_idx(p, '=') + 1)
    }
}

/// The value of the first `at` parameter among the `&`-separated pairs of
/// the query, if any.
pub open spec fn at_value(q: Seq<char>) -> Option<Seq<char>>
    decreases q.len(),
{
    if q.len() == 0 {
        None
    } else {
        let a = first_idx(q, '&');
        if 0 <= a < q.len() {
            let head = q.take(a);
            if pair_key(head) == "at"@ {
                Some(pair_value(head))
            } else {
                at_value(q.skip(a + 1))
            }
        } else {
            if pair_key(q) == "at"@ {
                Some(pair_value(q))
            } else {
                None
            }
        }
    }
}

/// The reading of one fragment info string, in the abstract.
pub enum AddrResolution {
    /// Not a tangle address: the fragment is skipped, not an error.
    NotTangle,
    /// A malformed tangle address or position key: fatal.
    Bad(RunFault),
    /// A destination path and, if given, the validated explicit key.
    Address(Seq<char>, Option<Seq<char>>),
}

/// What a fragment info string means.  This is the whole address grammar
/// in one place; `parse_address` computes exactly this.
pub open spec fn resolve_address(s: Seq<char>) -> AddrResolution {
    if !has_tangle_scheme(s) {
        AddrResolution::NotTangle
    } else if !has_tangle_prefix(s) {
        AddrResolution::Bad(RunFault::Path(s))
    } else {
        let rest = s.skip(9);
        let q = first_idx(rest, '?');
        let dest = rest.take(q);
        let query = if q == rest.len() {
            Seq::<char>::empty()
        } else {
            rest.skip(q + 1)
        };
        if !path_shape_ok(dest) {
            AddrResolution::Bad(RunFault::Path(s))
        } else if has_authority_marker(dest) {
            AddrResolution::Bad(RunFault::Authority(s))
        } else {
            match at_value(query) {
                None => AddrResolution::Address(dest, None),
                Some(v) => match key_outcome(v) {
                    Ok(k) => AddrResolution::Address(dest, Some(k)),
                    Err(f) => AddrResolution::Bad(RunFault::Position(f)),
                },
            }
        }
    }
}

/// The reading of one fragment info string.
#[derive(Debug)]
pub enum AddressOutcome {
    /// Not a tangle address: the fragment is skipped, not an error.
    NotTangle,
    /// A malformed tangle address or position key: fatal.
    Bad(TangleError),
    /// A tangle destination: the relative path, and the explicit position
    /// key if the address named one.
    Tangle(String, Option<Position>),
}

impl View for AddressOutcome {
    type V = AddrResolution;

    open spec fn view(&self) -> AddrResolution {
        match self {
            AddressOutcome::NotTangle => AddrResolution::NotTangle,
            AddressOutcome::Bad(e) => AddrResolution::Bad(e@),
            AddressOutcome::Tangle(d, p) => AddrResolution::Address(
                d@,
                match p {
                    Some(k) => Some(k@),
                    None => None,
                },
            ),
        }
    }
}

/// The first index in `[from, to)` where `c` occurs in `s`, or `to`.
fn find_char_in(s: &str, from: usize, to: usize, c: char) -> (r: usize)
    requires
        from <= to <= s@.len(),
    ensures
        from <= r <= to,
        forall|t: int| from <= t < r ==> s@[t] != c,
        r < to ==> s@[r as int] == c,
{
    let mut i: usize = from;
    while i < to
        invariant
            from <= i <= to <= s@.len(),
            forall|t: int| from <= t < i ==> s@[t] != c,
        decreases to - i,
    {
        if s.get_char(i) == c {
            return i;
        }
        i += 1;
    }
    to
}

/// The value of the first `at` parameter of the query `s[qstart..]`, if
/// any, scanning `&`-separated pairs and splitting each at its first `=`.
fn find_at_value(s: &str, qstart: usize) -> (r: Option<String>)
    requires
        qstart <= s@.len(),
    ensures
        match r {
            Some(v) => at_value(s@.subrange(qstart as int, s@.len() as int)) == Some(v@),
            None => at_value(s@.subrange(qstart as int, s@.len() as int)) is None,
        },
{
    let n = s.unicode_len();
    let ghost qfull = s@.subrange(qstart as int, n as int);
    let mut pos: usize = qstart;
    while pos <= n
        invariant
            qstart <= pos <= n,
            n == s@.len(),
            qfull == s@.subrange(qstart as int, n as int),
            at_value(qfull) == at_value(s@.subrange(pos as int, n as int)),
        decreases n - pos,
    {
        let ghost qcur = s@.subrange(pos as int, n as int);
        let amp = find_char_in(s, pos, n, '&');
        let eq = find_char_in(s, pos, amp, '=');
        proof {
            assert forall|t: int| 0 <= t < qcur.len() implies qcur[t] == s@[pos + t] by {}
            assert forall|j: int| 0 <= j < amp - pos implies qcur[j] != '&' by {
                assert(qcur[j] == s@[pos + j]);
            }
            if amp < n {
                assert(qcur[amp - pos] == s@[amp as int]);
            }
            lemma_first_idx_is(qcur, '&', amp - pos);
        }
        let ghost head = if amp < n {
            qcur.take(amp - pos)
        } else {
            qcur
        };
        proof {
            assert(head =~= s@.subrange(pos as int, amp as int));
            assert forall|j: int| 0 <= j < eq - pos implies head[j] != '=' by {
                assert(head[j] == s@[pos + j]);
            }
            if eq < amp {
                assert(head[eq - pos] == s@[eq as int]);
            }
            lemma_first_idx_is(head, '=', eq - pos);
        }
        let keystr = s.substring_char(pos, eq);
        proof {
            assert(keystr@ =~= pair_key(head));
        }
        if crate::position::str_eq(keystr, "at") {
            let value = if eq < amp {
                s.substring_char(eq + 1, amp)
            } else {
                s.substring_char(amp, amp)
            };
            proof {
                if eq < amp {
                    assert(first_idx(head, '=') < head.len());
                    assert(value@ =~= pair_value(head));
                } else {
                    assert(first_idx(head, '=') == head.len());
                    assert(value@ =~= pair_value(head));
                }
                if pos < n {
                    if amp < n {
                        assert(at_value(qcur) == Some(pair_value(head)));
                    } else {
                        assert(first_idx(qcur, '&') == qcur.len());
                        assert(at_value(qcur) == Some(pair_value(head)));
                    }
                } else {
                    // The empty pair has the empty key, which is not `at`.
                    reveal_strlit("at");
                    assert(keystr@.len() == 0 && "at"@.len() == 2);
                    assert(false);
                }
            }
            return Some(value.to_owned());
        }
        proof {
            reveal_strlit("at");
        }
        if amp == n {
            proof {
                if qcur.len() > 0 {
                    assert(first_idx(qcur, '&') == qcur.len());
                    assert(pair_key(qcur) == keystr@);
                    assert(at_value(qcur) is None);
                }
            }
            return None;
        }
        proof {
            assert(qcur.len() > 0);
            assert(first_idx(qcur, '&') == amp - pos < qcur.len());
            assert(pair_key(head) == keystr@);
            assert(at_value(qcur) == at_value(qcur.skip(amp - pos + 1)));
            assert(qcur.skip(amp - pos + 1) =~= s@.subrange(amp + 1, n as int));
        }
        pos = amp + 1;
    }
    proof {
        assert(false);
    }
    None
}

/// Read one fragment info string: exactly `resolve_address` of its text.
pub fn parse_address(lang: &str) -> (r: AddressOutcome)
    ensures
        r@ == resolve_address(lang@),
        match r {
            AddressOutcome::Tangle(d, p) => match p {
                Some(k) => is_valid_key(k@),
                None => true,
            },
            _ => true,
        },
{
    let n = lang.unicode_len();
    if n < 7 {
        return AddressOutcome::NotTangle;
    }
    let c0 = lang.get_char(0);
    let c1 = lang.get_char(1);
    let c2 = lang.get_char(2);
    let c3 = lang.get_char(3);
    let c4 = lang.get_char(4);
    let c5 = lang.get_char(5);
    let c6 = lang.get_char(6);
    if !((c0 == 't' || c0 == 'T') && (c1 == 'a' || c1 == 'A') && (c2 == 'n' || c2 == 'N') && (c3
        == 'g' || c3 == 'G') && (c4 == 'l' || c4 == 'L') && (c5 == 'e' || c5 == 'E') && c6
        == ':') {
        return AddressOutcome::NotTangle;
    }
    if n < 9 || lang.get_char(7) != '/' || lang.get_char(8) != '/' {
        return AddressOutcome::Bad(TangleError::Path(lang.to_owned()));
    }
    let ghost rest = lang@.skip(9);
    let q_abs = find_char_in(lang, 9, n, '?');
    proof {
        assert forall|t: int| 0 <= t < rest.len() implies rest[t] == lang@[9 + t] by {}
        assert forall|j: int| 0 <= j < q_abs - 9 implies rest[j] != '?' by {
            assert(rest[j] == lang@[9 + j]);
        }
        if q_abs < n {
            assert(rest[q_abs - 9] == lang@[q_abs as int]);
        }
        lemma_first_idx_is(rest, '?', q_abs - 9);
    }
    let ghost dest_v = rest.take(q_abs - 9);
    let dest = lang.substring_char(9, q_abs);
    proof {
        assert(dest@ =~= dest_v);
    }
    let dlen = q_abs - 9;
    if dlen == 0 {
        return AddressOutcome::Bad(TangleError::Path(lang.to_owned()));
    }
    if dest.get_char(0) == '/' {
        return AddressOutcome::Bad(TangleError::Path(lang.to_owned()));
    }
    if dest.get_char(dlen - 1) == '/' {
        return AddressOutcome::Bad(TangleError::Path(lang.to_owned()));
    }
    let mut i: usize = 0;
    while i + 1 < dlen
        invariant
            0 <= i <= dlen,
            dlen == dest_v.len(),
            dest@ == dest_v,
            rest == lang@.skip(9),
            dest_v == rest.take(q_abs - 9),
            n == lang@.len(),
            9 <= q_abs <= n,
            first_idx(rest, '?') == q_abs - 9,
            has_tangle_prefix(lang@),
            dest_v.len() > 0 && dest_v[0] != '/' && dest_v[dest_v.len() - 1] != '/',
            forall|t: int| 0 <= t < i ==> !((#[trigger] dest_v[t]) == '/' && dest_v[t + 1] == '/'),
        decreases dlen - i,
    {
        if dest.get_char(i) == '/' && dest.get_char(i + 1) == '/' {
            return AddressOutcome::Bad(TangleError::Path(lang.to_owned()));
        }
        i += 1;
    }
    proof {
        assert(path_shape_ok(dest_v));
    }
    let seg_end = find_char_in(dest, 0, dlen, '/');
    proof {
        lemma_first_idx_is(dest_v, '/', seg_end as int);
    }
    let mut j: usize = 0;
    while j < seg_end
        invariant
            0 <= j <= seg_end,
            dest@ == dest_v,
            rest == lang@.skip(9),
            dest_v == rest.take(q_abs - 9),
            n == lang@.len(),
            9 <= q_abs <= n,
            first_idx(rest, '?') == q_abs - 9,
            has_tangle_prefix(lang@),
            path_shape_ok(dest_v),
            seg_end as int == first_idx(dest_v, '/'),
            seg_end <= dlen == dest_v.len(),
            forall|t: int| 0 <= t < j ==> !(dest_v[t] == '@' || dest_v[t] == ':'),
        decreases seg_end - j,
    {
        let c = dest.get_char(j);
        if c == '@' || c == ':' {
            proof {
                assert(has_authority_marker(dest_v));
            }
            return AddressOutcome::Bad(TangleError::Authority(lang.to_owned()));
        }
        j += 1;
    }
    proof {
        assert(!has_authority_marker(dest_v));
    }
    let ghost query_v = if q_abs == n {
        Seq::<char>::empty()
    } else {
        rest.skip(q_abs - 9 + 1)
    };
    if q_abs == n {
        proof {
            assert(first_idx(rest, '?') == rest.len());
            assert(at_value(query_v) is None);
        }
        return AddressOutcome::Tangle(dest.to_owned(), None);
    }
    proof {
        assert(query_v =~= lang@.subrange(q_abs + 1, n as int));
    }
    match find_at_value(lang, q_abs + 1) {
        None => AddressOutcome::Tangle(dest.to_owned(), None),
        Some(v) => match Position::new(v) {
            Ok(p) => AddressOutcome::Tangle(dest.to_owned(), Some(p)),
            Err(e) => AddressOutcome::Bad(TangleError::Position(e)),
        },
    }
}

} // verus!
