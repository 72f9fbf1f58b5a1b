//! Position keys: validated ordering keys for blocks within one destination
//! file.
//!
//! A valid key is a non-empty string of lowercase ASCII letters that does not
//! start with the reserved sentinel letter `m`.  Blocks without an explicit
//! key are ranked at the sentinel key `"m"`; forbidding explicit keys that
//! start with `m` keeps every explicit key distinct from the sentinel.
//! Ordering between keys is plain lexicographic comparison.

use vstd::prelude::*;
use vstd::string::{StrSliceExecFns, StringExecFns};

verus! {

/// `c` is a lowercase ASCII letter.
pub open spec fn is_lower(c: char) -> bool {
    'a' <= c && c <= 'z'
}

/// `s` is a valid explicit position key.
pub open spec fn is_valid_key(s: Seq<char>) -> bool {
    &&& s.len() > 0
    &&& forall|i: int| 0 <= i < s.len() ==> is_lower(#[trigger] s[i])
    &&& s[0] != 'm'
}

/// The sentinel key at which blocks without an explicit position are ranked.
pub open spec fn sentinel_key() -> Seq<char> {
    seq!['m']
}

/// Strict lexicographic order on character sequences.
pub open spec fn lex_lt(a: Seq<char>, b: Seq<char>) -> bool
    decreases a.len(),
{
    if b.len() == 0 {
        false
    } else if a.len() == 0 {
        true
    } else if a[0] != b[0] {
        a[0] < b[0]
    } else {
        lex_lt(a.drop_first(), b.drop_first())
    }
}

pub proof fn lemma_lex_lt_irrefl(a: Seq<char>)
    ensures
        !lex_lt(a, a),
    decreases a.len(),
{
    if a.len() > 0 {
        lemma_lex_lt_irrefl(a.drop_first());
    }
}

pub proof fn lemma_lex_lt_asym(a: Seq<char>, b: Seq<char>)
    ensures
        lex_lt(a, b) ==> !lex_lt(b, a),
    decreases a.len(),
{
    if a.len() > 0 && b.len() > 0 && a[0] == b[0] {
        lemma_lex_lt_asym(a.drop_first(), b.drop_first());
    }
}

pub proof fn lemma_lex_lt_trans(a: Seq<char>, b: Seq<char>, c: Seq<char>)
    requires
        lex_lt(a, b),
        lex_lt(b, c),
    ensures
        lex_lt(a, c),
    decreases a.len(),
{
    if a.len() > 0 && b.len() > 0 && c.len() > 0 && a[0] == b[0] && b[0] == c[0] {
        lemma_lex_lt_trans(a.drop_first(), b.drop_first(), c.drop_first());
    }
}

/// Any two keys are ordered or equal: the order is total.
pub proof fn lemma_lex_lt_connex(a: Seq<char>, b: Seq<char>)
    ensures
        lex_lt(a, b) || lex_lt(b, a) || a == b,
    decreases a.len(),
{
    if a.len() > 0 && b.len() > 0 && a[0] == b[0] {
        lemma_lex_lt_connex(a.drop_first(), b.drop_first());
        if !lex_lt(a, b) && !lex_lt(b, a) {
            assert(a.drop_first() == b.drop_first());
            assert forall|i: int| 0 <= i < a.len() implies a[i] == b[i] by {
                if i > 0 {
                    assert(a[i] == a.drop_first()[i - 1]);
                    assert(b[i] == b.drop_first()[i - 1]);
                }
            }
            assert(a =~= b);
        }
    } else if a.len() == 0 && b.len() == 0 {
        assert(a =~= b);
    }
}

/// Why a string was rejected as a position key.
pub enum KeyFault {
    Empty,
    InvalidCharacters(Seq<char>),
    ReservedPrefix(Seq<char>),
}

/// The outcome of validating a candidate position key: the key itself, or
/// the first rule it breaks (emptiness, then the character rule, then the
/// reserved prefix).
pub open spec fn key_outcome(s: Seq<char>) -> Result<Seq<char>, KeyFault> {
    if s.len() == 0 {
        Err(KeyFault::Empty)
    } else if !(forall|i: int| 0 <= i < s.len() ==> is_lower(#[trigger] s[i])) {
        Err(KeyFault::InvalidCharacters(s))
    } else if s[0] == 'm' {
        Err(KeyFault::ReservedPrefix(s))
    } else {
        Ok(s)
    }
}

pub proof fn lemma_key_outcome_ok(s: Seq<char>)
    ensures
        key_outcome(s) is Ok <==> is_valid_key(s),
        key_outcome(s) is Ok ==> key_outcome(s)->Ok_0 == s,
{
}

/// Errors that can occur when validating a position key.
#[derive(Debug, Clone, PartialEq, Eq)]
pub enum PositionError {
    Empty,
    InvalidCharacters(String),
    ReservedPrefix(String),
}

impl View for PositionError {
    type V = KeyFault;

    open spec fn view(&self) -> KeyFault {
        match self {
            PositionError::Empty => KeyFault::Empty,
            PositionError::InvalidCharacters(k) => KeyFault::InvalidCharacters(k@),
            PositionError::ReservedPrefix(k) => KeyFault::ReservedPrefix(k@),
        }
    }
}

impl PositionError {
    /// A human-readable diagnostic naming the offending key.
    pub fn message(&self) -> (r: String)
        ensures
            match self {
                PositionError::Empty => r@ == "Position key must not be empty"@,
                PositionError::InvalidCharacters(k) => r@ == "Position key '"@ + k@
                    + "' must contain only lowercase letters"@,
                PositionError::ReservedPrefix(k) => r@ == "Position key '"@ + k@
                    + "' must not start with 'm'"@,
            },
    {
        match self {
            PositionError::Empty => "Position key must not be empty".to_owned(),
            PositionError::InvalidCharacters(k) => String::from_str("Position key '").concat(
                k.as_str(),
            ).concat("' must contain only lowercase letters"),
            PositionError::ReservedPrefix(k) => String::from_str("Position key '").concat(
                k.as_str(),
            ).concat("' must not start with 'm'"),
        }
    }
}

/// A validated position key.
#[derive(Debug, Clone, PartialEq, Eq)]
pub struct Position {
    key: String,
}

impl View for Position {
    type V = Seq<char>;

    closed spec fn view(&self) -> Seq<char> {
        self.key@
    }
}

impl Position {
    /// The type invariant: the stored key passed validation.
    pub open spec fn wf(&self) -> bool {
        is_valid_key(self@)
    }

    /// Validate `key`.  Succeeds exactly on valid keys and reports the first
    /// broken rule otherwise; an invalid key is never silently coerced.
    pub fn new(key: String) -> (r: Result<Position, PositionError>)
        ensures
            match r {
                Ok(p) => key_outcome(key@) == Ok::<Seq<char>, KeyFault>(p@) && p.wf(),
                Err(e) => key_outcome(key@) == Err::<Seq<char>, KeyFault>(e@),
            },
    {
        let len = key.as_str().unicode_len();
        if len == 0 {
            return Err(PositionError::Empty);
        }
        let mut i: usize = 0;
        while i < len
            invariant
                len == key@.len(),
                i <= len,
                forall|j: int| 0 <= j < i ==> is_lower(#[trigger] key@[j]),
            decreases len - i,
        {
            let c = key.as_str().get_char(i);
            if c < 'a' || c > 'z' {
                return Err(PositionError::InvalidCharacters(key));
            }
            i += 1;
        }
        if key.as_str().get_char(0) == 'm' {
            return Err(PositionError::ReservedPrefix(key));
        }
        Ok(Position { key })
    }

    /// The key as a string slice.
    pub fn as_str(&self) -> (r: &str)
        ensures
            r@ == self@,
    {
        self.key.as_str()
    }
}

/// Equality of two strings, character by character.
pub fn str_eq(a: &str, b: &str) -> (r: bool)
    ensures
        r == (a@ == b@),
{
    let r = !str_lex_lt(a, b) && !str_lex_lt(b, a);
    proof {
        lemma_lex_lt_connex(a@, b@);
        lemma_lex_lt_irrefl(a@);
    }
    r
}

/// Strict lexicographic comparison of two strings, character by character.
pub fn str_lex_lt(a: &str, b: &str) -> (r: bool)
    ensures
        r == lex_lt(a@, b@),
{
    let alen = a.unicode_len();
    let blen = b.unicode_len();
    let mut i: usize = 0;
    proof {
        assert(a@.skip(0) =~= a@);
        assert(b@.skip(0) =~= b@);
    }
    while i < alen && i < blen
        invariant
            alen == a@.len(),
            blen == b@.len(),
            i <= alen,
            i <= blen,
            lex_lt(a@, b@) == lex_lt(a@.skip(i as int), b@.skip(i as int)),
        decreases alen - i,
    {
        let ca = a.get_char(i);
        let cb = b.get_char(i);
        if ca != cb {
            assert(a@.skip(i as int)[0] == a@[i as int]);
            assert(b@.skip(i as int)[0] == b@[i as int]);
            return ca < cb;
        }
        proof {
            assert(a@.skip(i as int).drop_first() =~= a@.skip(i + 1));
            assert(b@.skip(i as int).drop_first() =~= b@.skip(i + 1));
        }
        i += 1;
    }
    proof {
        if i == alen && i < blen {
            assert(a@.skip(i as int).len() == 0);
            assert(b@.skip(i as int).len() > 0);
        } else if i == blen {
            assert(b@.skip(i as int).len() == 0);
        }
    }
    alen < blen
}

} // verus!
