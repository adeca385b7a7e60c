//! Query strings whose keys nest through brackets (`a[b][c]=1`), with
//! brackets also accepted percent-encoded (`%5B`, `%5D`).
use vstd::prelude::*;
use vstd::slice::slice_subrange;

use crate::decode::{
    decodes_from, has_escape,
    decode, escape_at, hex_pair, lemma_plain_decodes_to_itself, opt_view, parse_bytes, parse_char, Decoded, AMPERSAND,
    CLOSE_BRACKET, EQUALS, OPEN_BRACKET, PERCENT,
};
use crate::span::{
    find_key_end, find_pair_end, is_key_stop, key_end, lemma_key_end, lemma_pair_end, lemma_value_span, value_of,
    value_span,
};
use crate::store::{
    lemma_filter_empty, lemma_filter_keeps_order, lemma_filter_map_keeps_order, lemma_filter_push, lemma_filter_swap, strictly_sorted, Groups,
};

verus! {

/// How many bytes the bracket token `b` at position `i` of `s` spans: one for
/// the bracket itself, three for its escape, none where neither stands there.
pub open spec fn token_len(s: Seq<u8>, i: int, b: u8) -> int {
    if 0 <= i < s.len() && s[i] == b {
        1
    } else if escape_at(s, i) && hex_pair(s[i + 1], s[i + 2]) == Some(b) {
        3
    } else {
        0
    }
}

/// The first position at or after `i` where the top-level key ends: an
/// opening bracket token, `&`, `=`, or the end of `s`.
pub open spec fn root_end(s: Seq<u8>, i: int) -> int
    decreases s.len() - i,
{
    if i >= s.len() {
        s.len() as int
    } else if 0 <= i && (is_key_stop(s[i]) || token_len(s, i, OPEN_BRACKET) > 0) {
        i
    } else {
        root_end(s, i + 1)
    }
}

/// The first position at or after `i` of a closing bracket token, or the
/// length of `s`.
pub open spec fn close_at(s: Seq<u8>, i: int) -> int
    decreases s.len() - i,
{
    if i >= s.len() {
        s.len() as int
    } else if 0 <= i && token_len(s, i, CLOSE_BRACKET) > 0 {
        i
    } else {
        close_at(s, i + 1)
    }
}

/// A pair as written: the top-level key; where the key goes on with an
/// opening bracket, what follows that bracket up to `&` or `=`; and the
/// value where there is an `=`. All still encoded.
pub struct RawPair {
    pub key: Seq<u8>,
    pub rest: Option<Seq<u8>>,
    pub value: Option<Seq<u8>>,
}

/// How many bytes the key at the start of `s` spans, remainder included.
pub open spec fn key_span(s: Seq<u8>) -> int {
    let e = root_end(s, 0);
    let t = token_len(s, e, OPEN_BRACKET);
    if t > 0 {
        key_end(s, e + t)
    } else {
        e
    }
}

/// The remainder of the key at the start of `s`, where it has one.
pub open spec fn rest_of(s: Seq<u8>) -> Option<Seq<u8>> {
    let e = root_end(s, 0);
    let t = token_len(s, e, OPEN_BRACKET);
    if t > 0 {
        Some(s.subrange(e + t, key_end(s, e + t)))
    } else {
        None
    }
}

/// The pair at the start of `s`.
pub open spec fn pair_of(s: Seq<u8>) -> RawPair {
    RawPair {
        key: s.subrange(0, root_end(s, 0)),
        rest: rest_of(s),
        value: value_of(s.skip(key_span(s))),
    }
}

/// How many bytes the pair at the start of `s` spans, not counting the `&`
/// after it.
pub open spec fn pair_span(s: Seq<u8>) -> int {
    key_span(s) + value_span(s.skip(key_span(s)))
}

proof fn lemma_root_end(s: Seq<u8>, i: int)
    requires
        0 <= i <= s.len(),
    ensures
        i <= root_end(s, i) <= s.len(),
        forall|j: int|
            i <= j < root_end(s, i) ==> !is_key_stop(#[trigger] s[j]) && token_len(s, j, OPEN_BRACKET) == 0,
        root_end(s, i) < s.len() ==> is_key_stop(s[root_end(s, i)]) || token_len(
            s,
            root_end(s, i),
            OPEN_BRACKET,
        ) > 0,
    decreases s.len() - i,
{
    if i < s.len() && !(is_key_stop(s[i]) || token_len(s, i, OPEN_BRACKET) > 0) {
        lemma_root_end(s, i + 1);
    }
}

proof fn lemma_close_at(s: Seq<u8>, i: int)
    requires
        0 <= i <= s.len(),
    ensures
        i <= close_at(s, i) <= s.len(),
        close_at(s, i) < s.len() ==> token_len(s, close_at(s, i), CLOSE_BRACKET) > 0,
    decreases s.len() - i,
{
    if i < s.len() && token_len(s, i, CLOSE_BRACKET) == 0 {
        lemma_close_at(s, i + 1);
    }
}

proof fn lemma_key_span(s: Seq<u8>)
    ensures
        0 <= root_end(s, 0) <= key_span(s) <= s.len(),
        0 <= pair_span(s) <= s.len(),
{
    lemma_root_end(s, 0);
    let e = root_end(s, 0);
    let t = token_len(s, e, OPEN_BRACKET);
    if t > 0 {
        lemma_key_end(s, e + t);
    }
    lemma_value_span(s.skip(key_span(s)));
}

#[via_fn]
proof fn pairs_of_decreases(s: Seq<u8>) {
    lemma_key_span(s);
}

/// The pairs of `s`, in the order written.
pub open spec fn pairs_of(s: Seq<u8>) -> Seq<RawPair>
    decreases s.len(),
    via pairs_of_decreases
{
    if s.len() == 0 {
        Seq::empty()
    } else if pair_span(s) >= s.len() {
        seq![pair_of(s)]
    } else {
        seq![pair_of(s)] + pairs_of(s.skip(pair_span(s) + 1))
    }
}

/// The next-level key that the remainder `r` names: everything before its
/// first closing bracket token, or all of it where there is none.
pub open spec fn subkey_name(r: Seq<u8>) -> Seq<u8> {
    r.subrange(0, close_at(r, 0))
}

/// What stays of the remainder `r` after its next-level key: present only
/// where the closing bracket token is followed at once by an opening one.
pub open spec fn subkey_rest(r: Seq<u8>) -> Option<Seq<u8>> {
    let c = close_at(r, 0);
    if c >= r.len() {
        None
    } else {
        let a = c + token_len(r, c, CLOSE_BRACKET);
        let t = token_len(r, a, OPEN_BRACKET);
        if t > 0 {
            Some(r.subrange(a + t, r.len() as int))
        } else {
            None
        }
    }
}

/// The pair one level down: its key is the subkey of `p`, its value that of
/// `p`. `None` where `p` has no remainder.
pub open spec fn sub_pair(p: RawPair) -> Option<RawPair> {
    match p.rest {
        Some(r) => Some(RawPair { key: subkey_name(r), rest: subkey_rest(r), value: p.value }),
        None => None,
    }
}

/// The pairs one level down from `ps`, in order.
pub open spec fn sub_pairs(ps: Seq<RawPair>) -> Seq<RawPair> {
    ps.filter_map(|p: RawPair| sub_pair(p))
}

/// Whether `p` nests further: its remainder holds a closing bracket token.
/// Such a pair counts only one level down.
pub open spec fn nests(p: RawPair) -> bool {
    match p.rest {
        Some(r) => close_at(r, 0) < r.len(),
        None => false,
    }
}

/// Whether pair `p`'s key decodes to `k`.
pub open spec fn has_key(k: Seq<u8>) -> spec_fn(RawPair) -> bool {
    |p: RawPair| decode(p.key) == k
}

/// The pairs among `ps` whose key decodes to `k`, in order, or `None` where
/// there is none.
pub open spec fn grouped(ps: Seq<RawPair>, k: Seq<u8>) -> Option<Seq<RawPair>> {
    let g = ps.filter(has_key(k));
    if g.len() > 0 {
        Some(g)
    } else {
        None
    }
}

/// The pairs of a group that hold a value at this level, in order.
pub open spec fn leaves(g: Seq<RawPair>) -> Seq<RawPair> {
    g.filter(|p: RawPair| !nests(p))
}

/// The decoded value of a pair, `None` where it has no `=`.
pub open spec fn decoded_value(p: RawPair) -> Option<Seq<u8>> {
    match p.value {
        Some(v) => Some(decode(v)),
        None => None,
    }
}

/// An input without `&`, `=`, `[` or `%` is a single pair: the whole input
/// as key, with no value; it makes exactly one group, under that key.
pub proof fn lemma_plain_input_is_one_key(s: Seq<u8>)
    requires
        s.len() > 0,
        forall|i: int|
            0 <= i < s.len() ==> #[trigger] s[i] != AMPERSAND && s[i] != EQUALS && s[i]
                != OPEN_BRACKET && s[i] != PERCENT,
    ensures
        pairs_of(s) == seq![RawPair { key: s, rest: None, value: None }],
        forall|k: Seq<u8>|
            #[trigger] grouped(pairs_of(s), k) == if k == s {
                Some(seq![RawPair { key: s, rest: None, value: None }])
            } else {
                None
            },
{
    lemma_root_end(s, 0);
    let e = root_end(s, 0);
    if e < s.len() {
        assert(s[e] != PERCENT);
        assert(!escape_at(s, e));
        assert(token_len(s, e, OPEN_BRACKET) == 0);
        assert(is_key_stop(s[e]));
    }
    assert(token_len(s, s.len() as int, OPEN_BRACKET) == 0);
    assert(s.subrange(0, s.len() as int) =~= s);
    assert(s.skip(s.len() as int) =~= Seq::<u8>::empty());
    assert(pairs_of(s) == seq![RawPair { key: s, rest: None, value: None }]);
    lemma_plain_decodes_to_itself(s);
    assert forall|k: Seq<u8>|
        #[trigger] grouped(pairs_of(s), k) == if k == s {
            Some(seq![RawPair { key: s, rest: None, value: None }])
        } else {
            None
        } by {
        let ps = seq![RawPair { key: s, rest: None, value: None }];
        reveal(Seq::filter);
        assert(ps.drop_last() =~= Seq::<RawPair>::empty());
        if k == s {
            assert(ps.filter(has_key(k)) =~= ps);
        } else {
            assert(!has_key(k)(ps[0]));
            assert(ps.drop_last().filter(has_key(k)) =~= Seq::<RawPair>::empty());
            assert(ps.filter(has_key(k)) =~= Seq::<RawPair>::empty());
        }
    }
}

/// Pairs whose keys decode alike share one group, in the order written:
/// where `i < j`, pair `i` comes before pair `j` in it.
pub proof fn lemma_equal_decoded_keys_share_group(ps: Seq<RawPair>, i: int, j: int)
    requires
        0 <= i < j < ps.len(),
        decode(ps[i].key) == decode(ps[j].key),
    ensures
        grouped(ps, decode(ps[i].key)) is Some,
        exists|a: int, b: int|
            0 <= a < b < grouped(ps, decode(ps[i].key))->Some_0.len()
                && grouped(ps, decode(ps[i].key))->Some_0[a] == ps[i]
                && grouped(ps, decode(ps[i].key))->Some_0[b] == ps[j],
{
    let k = decode(ps[i].key);
    lemma_filter_keeps_order(ps, has_key(k), i, j);
    let g = ps.filter(has_key(k));
    let (a, b) = choose|a: int, b: int| 0 <= a < b < g.len() && g[a] == ps[i] && g[b] == ps[j];
    assert(grouped(ps, k) == Some(g));
    assert(0 <= a < b < grouped(ps, k)->Some_0.len() && grouped(ps, k)->Some_0[a] == ps[i]
        && grouped(ps, k)->Some_0[b] == ps[j]);
}

/// Under one decoded key the levels keep the order written: where `i < j`,
/// pair `i`'s leaf value comes before pair `j`'s, and pair `i`'s pair one
/// level down comes before pair `j`'s.
pub proof fn lemma_group_levels_keep_order(ps: Seq<RawPair>, i: int, j: int)
    requires
        0 <= i < j < ps.len(),
        decode(ps[i].key) == decode(ps[j].key),
    ensures
        grouped(ps, decode(ps[i].key)) is Some,
        !nests(ps[i]) && !nests(ps[j]) ==> exists|a: int, b: int|
            0 <= a < b < leaves(grouped(ps, decode(ps[i].key))->Some_0).len()
                && leaves(grouped(ps, decode(ps[i].key))->Some_0)[a] == ps[i]
                && leaves(grouped(ps, decode(ps[i].key))->Some_0)[b] == ps[j],
        ps[i].rest is Some && ps[j].rest is Some ==> exists|a: int, b: int|
            0 <= a < b < sub_pairs(grouped(ps, decode(ps[i].key))->Some_0).len()
                && sub_pairs(grouped(ps, decode(ps[i].key))->Some_0)[a] == sub_pair(ps[i])->Some_0
                && sub_pairs(grouped(ps, decode(ps[i].key))->Some_0)[b] == sub_pair(ps[j])->Some_0,
{
    let k = decode(ps[i].key);
    lemma_equal_decoded_keys_share_group(ps, i, j);
    let g = grouped(ps, k)->Some_0;
    let (a, b) = choose|a: int, b: int| 0 <= a < b < g.len() && g[a] == ps[i] && g[b] == ps[j];
    if !nests(ps[i]) && !nests(ps[j]) {
        let f = |p: RawPair| !nests(p);
        lemma_filter_keeps_order(g, f, a, b);
        let l = g.filter(f);
        assert(leaves(g) == l);
        let (c, d) = choose|c: int, d: int| 0 <= c < d < l.len() && l[c] == g[a] && l[d] == g[b];
        assert(0 <= c < d < leaves(g).len() && leaves(g)[c] == ps[i] && leaves(g)[d] == ps[j]);
    }
    if ps[i].rest is Some && ps[j].rest is Some {
        let f = |p: RawPair| sub_pair(p);
        lemma_filter_map_keeps_order(g, f, a, b);
        let m = g.filter_map(f);
        assert(sub_pairs(g) == m);
        let (c, d) = choose|c: int, d: int|
            0 <= c < d < m.len() && m[c] == f(g[a])->Some_0 && m[d] == f(g[b])->Some_0;
        assert(0 <= c < d < sub_pairs(g).len() && sub_pairs(g)[c] == sub_pair(ps[i])->Some_0
            && sub_pairs(g)[d] == sub_pair(ps[j])->Some_0);
    }
}

/// A key has no group exactly when no pair's key decodes to it; a group
/// that exists holds at least one pair.
pub proof fn lemma_absent_key(ps: Seq<RawPair>, k: Seq<u8>)
    ensures
        grouped(ps, k) is None <==> forall|i: int| 0 <= i < ps.len() ==> decode(#[trigger] ps[i].key) != k,
        grouped(ps, k) is Some ==> grouped(ps, k)->Some_0.len() > 0,
{
    lemma_filter_empty(ps, has_key(k));
    assert forall|i: int| 0 <= i < ps.len() implies (has_key(k)(#[trigger] ps[i]) <==> decode(ps[i].key) == k) by {}
}

/// Swapping two neighbouring pairs whose keys decode differently changes
/// no group: the order of unrelated keys never touches a key's own values.
pub proof fn lemma_unrelated_order(x: Seq<RawPair>, y: Seq<RawPair>, p: RawPair, q: RawPair, k: Seq<u8>)
    requires
        decode(p.key) != decode(q.key),
    ensures
        grouped(x + seq![p, q] + y, k) == grouped(x + seq![q, p] + y, k),
        grouped(x + seq![p, q] + y, k) is Some ==> leaves(grouped(x + seq![p, q] + y, k)->Some_0)
            == leaves(grouped(x + seq![q, p] + y, k)->Some_0),
        grouped(x + seq![p, q] + y, k) is Some ==> sub_pairs(grouped(x + seq![p, q] + y, k)->Some_0)
            == sub_pairs(grouped(x + seq![q, p] + y, k)->Some_0),
{
    lemma_filter_swap(x, y, p, q, has_key(k));
}

fn token_at(s: &[u8], i: usize, b: u8) -> (r: usize)
    requires
        i < s@.len(),
    ensures
        r == token_len(s@, i as int, b),
{
    if s[i] == b {
        1
    } else if s[i] == PERCENT && s.len() - i > 2 && parse_char(s[i + 1], s[i + 2]) == Some(b) {
        3
    } else {
        0
    }
}

/// The bytes that an optional span holds.
pub open spec fn opt_slice_view(o: Option<&[u8]>) -> Option<Seq<u8>> {
    match o {
        Some(d) => Some(d@),
        None => None,
    }
}

proof fn lemma_key_end_suffix(s: Seq<u8>, st: int)
    requires
        0 <= st <= s.len(),
    ensures
        key_end(s.subrange(st, s.len() as int), 0) + st == key_end(s, st),
{
    let t = s.subrange(st, s.len() as int);
    lemma_key_end(t, 0);
    lemma_key_end(s, st);
    let a = key_end(t, 0) + st;
    let b = key_end(s, st);
    if a < b {
        assert(t[a - st] == s[a]);
        assert(!is_key_stop(s[a]));
    } else if b < a {
        assert(t[b - st] == s[b]);
        assert(!is_key_stop(t[b - st]));
    }
}

/// A key: the top-level name, and where it goes on with an opening bracket,
/// the remainder after that bracket.
#[derive(Clone, Copy)]
pub struct Key<'a>(&'a [u8], Option<&'a [u8]>);

impl<'a> Key<'a> {
    /// The key at the start of `slice`, and how many bytes it spans.
    fn parse(slice: &'a [u8]) -> (r: (Self, usize))
        ensures
            r.0.0@ == slice@.subrange(0, root_end(slice@, 0)),
            opt_slice_view(r.0.1) == rest_of(slice@),
            r.1 == key_span(slice@),
    {
        let n = slice.len();
        let mut index: usize = 0;
        while index < n && slice[index] != AMPERSAND && slice[index] != EQUALS
            invariant
                n == slice@.len(),
                index <= n,
                root_end(slice@, 0) == root_end(slice@, index as int),
            decreases n - index,
        {
            let t = token_at(slice, index, OPEN_BRACKET);
            if t > 0 {
                proof {
                    lemma_key_end_suffix(slice@, index + t);
                    lemma_key_end(slice@, index + t);
                }
                let res = Key::parse_remains(
                    slice_subrange(slice, 0, index),
                    slice_subrange(slice, index + t, n),
                );
                return (res.0, res.1 + index + t);
            }
            index += 1;
        }
        (Key(slice_subrange(slice, 0, index), None), index)
    }

    fn parse_remains(key: &'a [u8], slice: &'a [u8]) -> (r: (Self, usize))
        ensures
            r.0.0@ == key@,
            r.0.1 is Some,
            r.0.1->Some_0@ == slice@.subrange(0, key_end(slice@, 0)),
            r.1 == key_end(slice@, 0),
    {
        let end = find_key_end(slice, 0);
        proof {
            lemma_key_end(slice@, 0);
        }
        (Key(key, Some(slice_subrange(slice, 0, end))), end)
    }

    /// The key one level down: the name before the remainder's next closing
    /// bracket, and whatever follows an opening bracket right after it.
    /// `None` where this key has no remainder.
    fn subkey(self) -> (r: Option<Self>)
        ensures
            match self.1 {
                Some(rem) => r is Some && r->Some_0.0@ == subkey_name(rem@) && opt_slice_view(
                    r->Some_0.1,
                ) == subkey_rest(rem@),
                None => r is None,
            },
    {
        let remains = match self.1 {
            Some(rem) => rem,
            None => return None,
        };
        let n = remains.len();
        let c = find_close(remains);
        proof {
            lemma_close_at(remains@, 0);
        }
        let name = slice_subrange(remains, 0, c);
        if c >= n {
            return Some(Key(name, None));
        }
        let a = c + token_at(remains, c, CLOSE_BRACKET);
        if a < n {
            let t = token_at(remains, a, OPEN_BRACKET);
            if t > 0 {
                return Some(Key(name, Some(slice_subrange(remains, a + t, n))));
            }
        }
        Some(Key(name, None))
    }

    /// Whether the remainder holds a closing bracket token, so that the key
    /// nests one level further.
    fn has_subkey(&self) -> (r: bool)
        ensures
            r == match self.1 {
                Some(rem) => close_at(rem@, 0) < rem@.len(),
                None => false,
            },
    {
        match self.1 {
            Some(remains) => {
                proof {
                    lemma_close_at(remains@, 0);
                }
                find_close(remains) < remains.len()
            },
            None => false,
        }
    }

    fn decode_to(&self) -> (r: Decoded<'a>)
        ensures
            r@ == decode(self.0@),
            r is Borrowed <==> !has_escape(self.0@),
            r is Borrowed ==> r->Borrowed_0 == self.0,
    {
        parse_bytes(self.0)
    }
}

fn find_close(s: &[u8]) -> (r: usize)
    ensures
        r == close_at(s@, 0),
{
    let mut i: usize = 0;
    while i < s.len()
        invariant
            i <= s@.len(),
            close_at(s@, 0) == close_at(s@, i as int),
        decreases s@.len() - i,
    {
        if token_at(s, i, CLOSE_BRACKET) > 0 {
            return i;
        }
        i += 1;
    }
    i
}

/// A value span: what follows `=`, up to the next `&` or the end.
#[derive(Clone, Copy)]
pub struct Value<'a>(&'a [u8]);

impl<'a> View for Value<'a> {
    type V = Seq<u8>;

    closed spec fn view(&self) -> Seq<u8> {
        self.0@
    }
}

impl<'a> Value<'a> {
    /// The value that follows a key, where `slice` starts right after the
    /// key, and how many bytes it spans with its `=`.
    fn parse(slice: &'a [u8]) -> (r: (Option<Self>, usize))
        ensures
            match r.0 {
                Some(v) => value_of(slice@) == Some(v.0@),
                None => value_of(slice@) is None,
            },
            r.1 == value_span(slice@),
    {
        if slice.len() == 0 || slice[0] == AMPERSAND {
            return (None, 0);
        }
        let end = find_pair_end(slice, 1);
        proof {
            lemma_pair_end(slice@, 1);
        }
        (Some(Value(slice_subrange(slice, 1, end))), end)
    }

    fn decode_to(&self) -> (r: Decoded<'a>)
        ensures
            r@ == decode(self.0@),
            r is Borrowed <==> !has_escape(self.0@),
            r is Borrowed ==> r->Borrowed_0 == self.0,
    {
        parse_bytes(self.0)
    }

    /// The value's bytes, not decoded.
    pub fn slice(&self) -> (r: &'a [u8])
        ensures
            r@ == self@,
    {
        self.0
    }
}

/// A key with its optional value.
#[derive(Clone, Copy)]
pub struct Pair<'a>(Key<'a>, Option<Value<'a>>);

impl<'a> View for Pair<'a> {
    type V = RawPair;

    closed spec fn view(&self) -> RawPair {
        RawPair {
            key: self.0.0@,
            rest: opt_slice_view(self.0.1),
            value: match self.1 {
                Some(v) => Some(v.0@),
                None => None,
            },
        }
    }
}

impl<'a> Pair<'a> {
    /// The pair at the start of `slice`, and how many bytes it spans with
    /// the `&` that follows it (counted also where the input ends instead).
    fn parse(slice: &'a [u8]) -> (r: (Self, usize))
        requires
            slice@.len() < usize::MAX,
        ensures
            r.0@ == pair_of(slice@),
            r.1 == pair_span(slice@) + 1,
            r.1 <= slice@.len() + 1,
    {
        let (key, key_len) = Key::parse(slice);
        proof {
            lemma_key_span(slice@);
        }
        let rest = slice_subrange(slice, key_len, slice.len());
        let (value, value_len) = Value::parse(rest);
        proof {
            assert(rest@ == slice@.skip(key_len as int));
        }
        (Pair(key, value), key_len + value_len + 1)
    }

    fn new(k: Key<'a>, v: Option<Value<'a>>) -> (r: Pair<'a>)
        ensures
            r.0 == k,
            r.1 == v,
    {
        Pair(k, v)
    }

    fn decoded_value(&self) -> (r: Option<Decoded<'a>>)
        ensures
            opt_view(r) == decoded_value(self@),
            decodes_from(r, self@.value),
    {
        match &self.1 {
            Some(v) => Some(v.decode_to()),
            None => None,
        }
    }

    /// The pair's value as written, `None` where it has no `=`.
    pub fn raw_value(&self) -> (r: Option<&'a [u8]>)
        ensures
            opt_slice_view(r) == self@.value,
    {
        match &self.1 {
            Some(v) => Some(v.slice()),
            None => None,
        }
    }
}

/// The pairs of one group, in the order written.
pub struct Pairs<'a>(pub Vec<Pair<'a>>);

impl<'a> View for Pairs<'a> {
    type V = Seq<RawPair>;

    closed spec fn view(&self) -> Seq<RawPair> {
        self.0@.map_values(|p: Pair<'a>| p@)
    }
}

/// A parsed query string with bracket nesting: its pairs grouped by decoded
/// top-level key, keys in increasing byte order, each group in the order its
/// pairs were written.
pub struct BracketsQS<'a> {
    pairs: Groups<'a, Pair<'a>>,
}

impl<'a> BracketsQS<'a> {
    /// The internal invariant of the store.
    pub closed spec fn wf(&self) -> bool {
        self.pairs.wf()
    }

    /// The pairs whose key decodes to `k`, or `None` where there is none.
    pub closed spec fn group(&self, k: Seq<u8>) -> Option<Seq<RawPair>> {
        self.pairs.group(k)
    }

    /// Parses `slice`: every pair of it lands in the group of its decoded
    /// top-level key.
    ///
    /// No slice in memory reaches `usize::MAX` bytes; the bound is stated
    /// so that a pair's length with its separator fits in `usize`.
    pub fn parse(slice: &'a [u8]) -> (r: Self)
        requires
            slice@.len() < usize::MAX,
        ensures
            r.wf(),
            forall|k: Seq<u8>| #[trigger] r.group(k) == grouped(pairs_of(slice@), k),
    {
        let mut pairs: Groups<'a, Pair<'a>> = Groups::new();
        let n = slice.len();
        let mut index: usize = 0;
        let ghost mut done: Seq<RawPair> = Seq::empty();
        proof {
            assert(slice@.subrange(0, n as int) =~= slice@);
            assert forall|k: Seq<u8>| #[trigger] pairs.group(k) == grouped(done, k) by {
                reveal(Seq::filter);
                assert(done.filter(has_key(k)) =~= Seq::<RawPair>::empty());
            }
        }
        while index < n
            invariant
                n == slice@.len(),
                n < usize::MAX,
                index <= n,
                pairs.wf(),
                pairs_of(slice@) == done + pairs_of(slice@.subrange(index as int, n as int)),
                forall|k: Seq<u8>| #[trigger] pairs.group(k) == grouped(done, k),
            decreases n - index,
        {
            let rest = slice_subrange(slice, index, n);
            let (pair, len) = Pair::parse(rest);
            let ghost pv = pair@;
            let ghost old_done = done;
            let key = pair.0.decode_to();
            let ghost old_pairs = pairs;
            pairs.insert(key, pair);
            proof {
                done = done.push(pv);
                assert forall|k: Seq<u8>| #[trigger] pairs.group(k) == grouped(done, k) by {
                    lemma_filter_push(old_done, pv, has_key(k));
                    assert(old_pairs.group(k) == grouped(old_done, k));
                }
                let t = slice@.subrange(index as int, n as int);
                assert(t.len() > 0);
                assert(pairs_of(t) == if pair_span(t) >= t.len() {
                    seq![pair_of(t)]
                } else {
                    seq![pair_of(t)] + pairs_of(t.skip(pair_span(t) + 1))
                });
            }
            if len > n - index {
                proof {
                    assert(pairs_of(slice@) =~= done);
                    assert(slice@.subrange(n as int, n as int) =~= Seq::<u8>::empty());
                    assert(pairs_of(slice@) =~= done + pairs_of(slice@.subrange(n as int, n as int)));
                }
                index = n;
            } else {
                proof {
                    let t = slice@.subrange(index as int, n as int);
                    assert(t.skip(len as int) =~= slice@.subrange(index + len, n as int));
                    assert(seq![pv] + pairs_of(t.skip(len as int)) == pairs_of(t));
                    assert(pairs_of(slice@) =~= done + pairs_of(slice@.subrange(index + len, n as int)));
                }
                index = index + len;
            }
        }
        BracketsQS { pairs }
    }

    /// Groups the pairs one level down from `pairs`: each pair with a
    /// remainder is replaced by its subkey and keeps its value; pairs without
    /// one are left out.
    pub fn from_pairs(pairs: &[Pair<'a>]) -> (r: Self)
        ensures
            r.wf(),
            forall|k: Seq<u8>|
                #[trigger] r.group(k) == grouped(sub_pairs(pairs@.map_values(|p: Pair<'a>| p@)), k),
    {
        let ghost pv = pairs@.map_values(|p: Pair<'a>| p@);
        let mut groups: Groups<'a, Pair<'a>> = Groups::new();
        let mut i: usize = 0;
        proof {
            assert forall|k: Seq<u8>| #[trigger] groups.group(k) == grouped(sub_pairs(pv.take(0)), k) by {
                reveal(Seq::filter);
                assert(sub_pairs(pv.take(0)) =~= Seq::<RawPair>::empty());
                assert(sub_pairs(pv.take(0)).filter(has_key(k)) =~= Seq::<RawPair>::empty());
            }
        }
        while i < pairs.len()
            invariant
                i <= pairs@.len(),
                pv == pairs@.map_values(|p: Pair<'a>| p@),
                groups.wf(),
                forall|k: Seq<u8>| #[trigger] groups.group(k) == grouped(sub_pairs(pv.take(i as int)), k),
            decreases pairs@.len() - i,
        {
            let p = pairs[i];
            let ghost prev = pv.take(i as int);
            proof {
                assert(pv.take(i + 1).drop_last() =~= prev);
                assert(pv.take(i + 1).last() == p@);
                assert(sub_pairs(pv.take(i + 1)) == match sub_pair(p@) {
                    Some(q) => sub_pairs(prev) + seq![q],
                    None => sub_pairs(prev),
                });
            }
            match p.0.subkey() {
                Some(k) => {
                    let key = k.decode_to();
                    let sp = Pair::new(k, p.1);
                    let ghost old_groups = groups;
                    groups.insert(key, sp);
                    proof {
                        assert(sub_pair(p@) == Some(sp@));
                        assert(sub_pairs(prev) + seq![sp@] =~= sub_pairs(prev).push(sp@));
                        assert forall|kk: Seq<u8>| #[trigger] groups.group(kk) == grouped(sub_pairs(pv.take(i + 1)), kk) by {
                            lemma_filter_push(sub_pairs(prev), sp@, has_key(kk));
                            assert(old_groups.group(kk) == grouped(sub_pairs(prev), kk));
                        }
                    }
                },
                None => {},
            }
            i += 1;
        }
        proof {
            assert(pv.take(i as int) =~= pv);
        }
        BracketsQS { pairs: groups }
    }

    /// The decoded top-level keys, in increasing byte order, each once.
    pub fn keys(&self) -> (r: Vec<&Decoded<'a>>)
        requires
            self.wf(),
        ensures
            strictly_sorted(r@.map_values(|d: &Decoded<'a>| d@)),
            forall|k: Seq<u8>|
                r@.map_values(|d: &Decoded<'a>| d@).contains(k) <==> #[trigger] self.group(k) is Some,
    {
        proof {
            self.pairs.lemma_keys();
        }
        self.pairs.keys()
    }

    /// The store one level down under `key`: the pairs of its group, each
    /// replaced by its subkey. `None` where no pair has that key.
    pub fn sub_values(&self, key: &[u8]) -> (r: Option<BracketsQS<'a>>)
        requires
            self.wf(),
        ensures
            match r {
                Some(q) => self.group(key@) is Some && q.wf() && forall|k: Seq<u8>|
                    #[trigger] q.group(k) == grouped(sub_pairs(self.group(key@)->Some_0), k),
                None => self.group(key@) is None,
            },
    {
        match self.pairs.get(key) {
            Some(g) => Some(Self::from_pairs(g.as_slice())),
            None => None,
        }
    }

    /// The values written under `key` by pairs that do not nest further,
    /// decoded, in the order written; `None` where no pair has that key.
    pub fn values(&self, key: &[u8]) -> (r: Option<Vec<Option<Decoded<'a>>>>)
        requires
            self.wf(),
        ensures
            match r {
                Some(v) => self.group(key@) is Some && v@.map_values(|o: Option<Decoded<'a>>| opt_view(o))
                    == leaves(self.group(key@)->Some_0).map_values(|p: RawPair| decoded_value(p))
                    && forall|i: int|
                    0 <= i < v@.len() ==> decodes_from(
                        #[trigger] v@[i],
                        leaves(self.group(key@)->Some_0)[i].value,
                    ),
                None => self.group(key@) is None,
            },
    {
        let group = match self.pairs.get(key) {
            Some(g) => g,
            None => return None,
        };
        let ghost gv = group@.map_values(|p: Pair<'a>| p@);
        let mut out: Vec<Option<Decoded<'a>>> = Vec::new();
        let mut i: usize = 0;
        proof {
            reveal(Seq::filter);
            assert(leaves(gv.take(0)) =~= Seq::<RawPair>::empty());
        }
        while i < group.len()
            invariant
                i <= group@.len(),
                gv == group@.map_values(|p: Pair<'a>| p@),
                out@.map_values(|o: Option<Decoded<'a>>| opt_view(o)) == leaves(gv.take(i as int)).map_values(
                    |p: RawPair| decoded_value(p),
                ),
                out@.len() == leaves(gv.take(i as int)).len(),
                forall|j: int|
                    0 <= j < out@.len() ==> decodes_from(#[trigger] out@[j], leaves(gv.take(i as int))[j].value),
            decreases group@.len() - i,
        {
            let p = &group[i];
            let ghost prev = gv.take(i as int);
            let ghost old_out = out@;
            proof {
                assert(gv.take(i + 1) =~= prev.push(p@));
                lemma_filter_push(prev, p@, |q: RawPair| !nests(q));
            }
            if !p.0.has_subkey() {
                out.push(p.decoded_value());
                proof {
                    assert forall|j: int| 0 <= j < out@.len() implies decodes_from(#[trigger] out@[j], leaves(gv.take(i + 1))[j].value) by {
                        if j < old_out.len() {
                            assert(out@[j] == old_out[j]);
                        }
                    }
                    assert(out@.map_values(|o: Option<Decoded<'a>>| opt_view(o)) =~= old_out.map_values(|o: Option<Decoded<'a>>| opt_view(o)).push(decoded_value(p@)));
                    assert(leaves(gv.take(i + 1)).map_values(|q: RawPair| decoded_value(q)) =~= leaves(prev).map_values(|q: RawPair| decoded_value(q)).push(decoded_value(p@)));
                }
            }
            i += 1;
        }
        proof {
            assert(gv.take(i as int) =~= gv);
        }
        Some(out)
    }

    /// The value of the last pair under `key` that does not nest further,
    /// decoded: the outer `None` where no pair has that key or every one
    /// nests, the inner one where that pair has no `=`.
    pub fn value(&self, key: &[u8]) -> (r: Option<Option<Decoded<'a>>>)
        requires
            self.wf(),
        ensures
            match r {
                Some(v) => self.group(key@) is Some && leaves(self.group(key@)->Some_0).len() > 0
                    && opt_view(v) == decoded_value(leaves(self.group(key@)->Some_0).last())
                    && decodes_from(v, leaves(self.group(key@)->Some_0).last().value),
                None => self.group(key@) is None || leaves(self.group(key@)->Some_0).len() == 0,
            },
    {
        let group = match self.pairs.get(key) {
            Some(g) => g,
            None => return None,
        };
        let ghost gv = group@.map_values(|p: Pair<'a>| p@);
        let mut last: Option<usize> = None;
        let mut i: usize = 0;
        proof {
            reveal(Seq::filter);
            assert(leaves(gv.take(0)) =~= Seq::<RawPair>::empty());
        }
        while i < group.len()
            invariant
                i <= group@.len(),
                gv == group@.map_values(|p: Pair<'a>| p@),
                match last {
                    Some(j) => j < i && leaves(gv.take(i as int)).len() > 0 && leaves(gv.take(i as int)).last() == gv[j as int],
                    None => leaves(gv.take(i as int)).len() == 0,
                },
            decreases group@.len() - i,
        {
            let ghost prev = gv.take(i as int);
            proof {
                assert(gv.take(i + 1) =~= prev.push(gv[i as int]));
                lemma_filter_push(prev, gv[i as int], |q: RawPair| !nests(q));
            }
            if !group[i].0.has_subkey() {
                last = Some(i);
            }
            i += 1;
        }
        proof {
            assert(gv.take(i as int) =~= gv);
        }
        match last {
            Some(j) => Some(group[j].decoded_value()),
            None => None,
        }
    }

    /// The groups, each with its decoded key, in increasing key order.
    pub fn into_iter(self) -> (r: Vec<(Decoded<'a>, Pairs<'a>)>)
        requires
            self.wf(),
        ensures
            strictly_sorted(r@.map_values(|e: (Decoded<'a>, Pairs<'a>)| e.0@)),
            forall|k: Seq<u8>|
                r@.map_values(|e: (Decoded<'a>, Pairs<'a>)| e.0@).contains(k) <==> #[trigger] self.group(k) is Some,
            forall|i: int|
                0 <= i < r@.len() ==> self.group((#[trigger] r@[i]).0@) == Some(r@[i].1@),
    {
        let ghost keys = self.pairs.keys_view();
        proof {
            self.pairs.lemma_keys();
        }
        let ghost this = self;
        let mut entries = self.pairs.into_entries();
        let mut out: Vec<(Decoded<'a>, Pairs<'a>)> = Vec::new();
        let ghost all = entries@;
        let n = entries.len();
        let mut i: usize = 0;
        while i < n
            invariant
                n == all.len(),
                n == keys.len(),
                i <= n,
                entries@ == all.subrange(i as int, n as int),
                forall|j: int| 0 <= j < n ==> (#[trigger] all[j]).key@ == keys[j],
                out@.len() == i,
                forall|j: int| 0 <= j < i ==> (#[trigger] out@[j]).0@ == keys[j] && out@[j].1@ == all[j].pairs@.map_values(|p: Pair<'a>| p@),
            decreases n - i,
        {
            let e = entries.remove(0);
            assert(e == all[i as int]);
            assert(entries@ =~= all.subrange(i + 1, n as int));
            let ghost prev = out@;
            out.push((e.key, Pairs(e.pairs)));
            assert forall|j: int| 0 <= j < i + 1 implies (#[trigger] out@[j]).0@ == keys[j] && out@[j].1@ == all[j].pairs@.map_values(|p: Pair<'a>| p@) by {
                if j < i {
                    assert(out@[j] == prev[j]);
                }
            }
            i += 1;
        }
        proof {
            assert(out@.map_values(|e: (Decoded<'a>, Pairs<'a>)| e.0@) =~= keys);
            assert forall|j: int| 0 <= j < out@.len() implies this.group((#[trigger] out@[j]).0@) == Some(out@[j].1@) by {
                assert(all[j].key@ == keys[j]);
            }
        }
        out
    }
}

} // verus!
