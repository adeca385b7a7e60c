//! Where keys and values end in a query string.
use vstd::prelude::*;

use crate::decode::{AMPERSAND, EQUALS};

verus! {

/// A byte that ends a key: `&` or `=`.
pub open spec fn is_key_stop(c: u8) -> bool {
    c == AMPERSAND || c == EQUALS
}

/// The first position at or after `i` that holds a key stop, or the length.
pub open spec fn key_end(s: Seq<u8>, i: int) -> int
    decreases s.len() - i,
{
    if i >= s.len() {
        s.len() as int
    } else if 0 <= i && is_key_stop(s[i]) {
        i
    } else {
        key_end(s, i + 1)
    }
}

/// The first position at or after `i` that holds `&`, or the length.
pub open spec fn pair_end(s: Seq<u8>, i: int) -> int
    decreases s.len() - i,
{
    if i >= s.len() {
        s.len() as int
    } else if 0 <= i && s[i] == AMPERSAND {
        i
    } else {
        pair_end(s, i + 1)
    }
}

/// The value that follows a key, where `s` starts right after the key:
/// none at `&` or at the end, else what lies between `=` and the next `&`.
pub open spec fn value_of(s: Seq<u8>) -> Option<Seq<u8>> {
    if s.len() == 0 || s[0] == AMPERSAND {
        None
    } else {
        Some(s.subrange(1, pair_end(s, 1)))
    }
}

/// How many bytes the value that follows a key spans, its `=` included.
pub open spec fn value_span(s: Seq<u8>) -> int {
    if s.len() == 0 || s[0] == AMPERSAND {
        0
    } else {
        pair_end(s, 1)
    }
}

/// `key_end` lies between `i` and the length, with no key stop before it.
pub proof fn lemma_key_end(s: Seq<u8>, i: int)
    requires
        0 <= i <= s.len(),
    ensures
        i <= key_end(s, i) <= s.len(),
        forall|j: int| i <= j < key_end(s, i) ==> !is_key_stop(#[trigger] s[j]),
        key_end(s, i) < s.len() ==> is_key_stop(s[key_end(s, i)]),
    decreases s.len() - i,
{
    if i < s.len() && !is_key_stop(s[i]) {
        lemma_key_end(s, i + 1);
    }
}

/// `pair_end` lies between `i` and the length, with no `&` before it.
pub proof fn lemma_pair_end(s: Seq<u8>, i: int)
    requires
        0 <= i <= s.len(),
    ensures
        i <= pair_end(s, i) <= s.len(),
        forall|j: int| i <= j < pair_end(s, i) ==> #[trigger] s[j] != AMPERSAND,
        pair_end(s, i) < s.len() ==> s[pair_end(s, i)] == AMPERSAND,
    decreases s.len() - i,
{
    if i < s.len() && s[i] != AMPERSAND {
        lemma_pair_end(s, i + 1);
    }
}

/// A value spans its bytes and its `=`, and no more than `s` holds.
pub proof fn lemma_value_span(s: Seq<u8>)
    ensures
        0 <= value_span(s) <= s.len(),
        value_span(s) == (match value_of(s) {
            Some(v) => v.len() + 1,
            None => 0,
        }),
{
    if s.len() > 0 {
        lemma_pair_end(s, 1);
    }
}

/// Finds the end of a key: the first `&` or `=`, or the end of `s`.
pub fn find_key_end(s: &[u8], from: usize) -> (r: usize)
    requires
        from <= s@.len(),
    ensures
        r == key_end(s@, from as int),
{
    let mut i = from;
    while i < s.len()
        invariant
            from <= i <= s@.len(),
            key_end(s@, from as int) == key_end(s@, i as int),
        decreases s@.len() - i,
    {
        if s[i] == AMPERSAND || s[i] == EQUALS {
            return i;
        }
        i += 1;
    }
    i
}

/// Finds the end of a pair: the first `&` at or after `from`, or the end of `s`.
pub fn find_pair_end(s: &[u8], from: usize) -> (r: usize)
    requires
        from <= s@.len(),
    ensures
        r == pair_end(s@, from as int),
{
    let mut i = from;
    while i < s.len()
        invariant
            from <= i <= s@.len(),
            pair_end(s@, from as int) == pair_end(s@, i as int),
        decreases s@.len() - i,
    {
        if s[i] == AMPERSAND {
            return i;
        }
        i += 1;
    }
    i
}

} // verus!
