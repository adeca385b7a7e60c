//! Query strings where a repeated key collects several values
//! (`a=1&a=2`).
use vstd::prelude::*;
use vstd::slice::slice_subrange;

use crate::decode::{
    decodes_from, has_escape,
    decode, lemma_plain_decodes_to_itself, opt_view, parse_bytes, Decoded, AMPERSAND, EQUALS,
    OPEN_BRACKET, PERCENT,
};
use crate::span::{
    find_key_end, find_pair_end, is_key_stop, key_end, lemma_key_end, lemma_pair_end, lemma_value_span, value_of,
    value_span,
};
use crate::store::{
    lemma_filter_empty, lemma_filter_keeps_order, lemma_filter_push, lemma_filter_swap, strictly_sorted, Groups,
};

verus! {

/// A pair as written: its key and, where it has an `=`, its value, both
/// still encoded.
pub struct RawPair {
    pub key: Seq<u8>,
    pub value: Option<Seq<u8>>,
}

/// The pair at the start of `s`.
pub open spec fn pair_of(s: Seq<u8>) -> RawPair {
    let e = key_end(s, 0);
    RawPair { key: s.subrange(0, e), value: value_of(s.skip(e)) }
}

/// How many bytes the pair at the start of `s` spans, not counting the `&`
/// after it.
pub open spec fn pair_span(s: Seq<u8>) -> int {
    let e = key_end(s, 0);
    e + value_span(s.skip(e))
}

#[via_fn]
proof fn pairs_of_decreases(s: Seq<u8>) {
    lemma_key_end(s, 0);
    lemma_value_span(s.skip(key_end(s, 0)));
}

/// The pairs of `s`, in the order written.
pub open spec fn pairs_of(s: Seq<u8>) -> Seq<RawPair>
    decreases s.len(),
    via pairs_of_decreases
{
    if s.len() == 0 {
        Seq::empty()
    } else if pair_span(s) >= s.len() {
        seq![pair_of(s)]
    } else {
        seq![pair_of(s)] + pairs_of(s.skip(pair_span(s) + 1))
    }
}

/// Whether pair `p`'s key decodes to `k`.
pub open spec fn has_key(k: Seq<u8>) -> spec_fn(RawPair) -> bool {
    |p: RawPair| decode(p.key) == k
}

/// The pairs among `ps` whose key decodes to `k`, in order, or `None` where
/// there is none.
pub open spec fn grouped(ps: Seq<RawPair>, k: Seq<u8>) -> Option<Seq<RawPair>> {
    let g = ps.filter(has_key(k));
    if g.len() > 0 {
        Some(g)
    } else {
        None
    }
}

/// The decoded value of a pair, `None` where it has no `=`.
pub open spec fn decoded_value(p: RawPair) -> Option<Seq<u8>> {
    match p.value {
        Some(v) => Some(decode(v)),
        None => None,
    }
}

/// The value of a pair as written, empty where it has no `=`.
pub open spec fn raw_or_empty(p: RawPair) -> Seq<u8> {
    match p.value {
        Some(v) => v,
        None => Seq::empty(),
    }
}

/// The bytes that an optional span holds.
pub open spec fn opt_slice_view(o: Option<&[u8]>) -> Option<Seq<u8>> {
    match o {
        Some(d) => Some(d@),
        None => None,
    }
}

/// An input without `&`, `=`, `[` or `%` is a single pair: the whole input
/// as key, with no value; it makes exactly one group, under that key.
pub proof fn lemma_plain_input_is_one_key(s: Seq<u8>)
    requires
        s.len() > 0,
        forall|i: int|
            0 <= i < s.len() ==> #[trigger] s[i] != AMPERSAND && s[i] != EQUALS && s[i]
                != OPEN_BRACKET && s[i] != PERCENT,
    ensures
        pairs_of(s) == seq![RawPair { key: s, value: None }],
        forall|k: Seq<u8>|
            #[trigger] grouped(pairs_of(s), k) == if k == s {
                Some(seq![RawPair { key: s, value: None }])
            } else {
                None
            },
{
    lemma_key_end(s, 0);
    if key_end(s, 0) < s.len() {
        assert(is_key_stop(s[key_end(s, 0)]));
    }
    assert(s.subrange(0, s.len() as int) =~= s);
    assert(s.skip(s.len() as int) =~= Seq::<u8>::empty());
    assert(pairs_of(s) == seq![RawPair { key: s, value: None }]);
    lemma_plain_decodes_to_itself(s);
    assert forall|k: Seq<u8>|
        #[trigger] grouped(pairs_of(s), k) == if k == s {
            Some(seq![RawPair { key: s, value: None }])
        } else {
            None
        } by {
        let ps = seq![RawPair { key: s, value: None }];
        reveal(Seq::filter);
        assert(ps.drop_last() =~= Seq::<RawPair>::empty());
        if k == s {
            assert(ps.filter(has_key(k)) =~= ps);
        } else {
            assert(!has_key(k)(ps[0]));
            assert(ps.drop_last().filter(has_key(k)) =~= Seq::<RawPair>::empty());
            assert(ps.filter(has_key(k)) =~= Seq::<RawPair>::empty());
        }
    }
}

/// Pairs whose keys decode alike share one group, in the order written:
/// where `i < j`, pair `i` comes before pair `j` in it.
pub proof fn lemma_equal_decoded_keys_share_group(ps: Seq<RawPair>, i: int, j: int)
    requires
        0 <= i < j < ps.len(),
        decode(ps[i].key) == decode(ps[j].key),
    ensures
        grouped(ps, decode(ps[i].key)) is Some,
        exists|a: int, b: int|
            0 <= a < b < grouped(ps, decode(ps[i].key))->Some_0.len()
                && grouped(ps, decode(ps[i].key))->Some_0[a] == ps[i]
                && grouped(ps, decode(ps[i].key))->Some_0[b] == ps[j],
{
    let k = decode(ps[i].key);
    lemma_filter_keeps_order(ps, has_key(k), i, j);
    let g = ps.filter(has_key(k));
    let (a, b) = choose|a: int, b: int| 0 <= a < b < g.len() && g[a] == ps[i] && g[b] == ps[j];
    assert(grouped(ps, k) == Some(g));
    assert(0 <= a < b < grouped(ps, k)->Some_0.len() && grouped(ps, k)->Some_0[a] == ps[i]
        && grouped(ps, k)->Some_0[b] == ps[j]);
}

/// A key has no group exactly when no pair's key decodes to it; a group
/// that exists holds at least one pair.
pub proof fn lemma_absent_key(ps: Seq<RawPair>, k: Seq<u8>)
    ensures
        grouped(ps, k) is None <==> forall|i: int| 0 <= i < ps.len() ==> decode(#[trigger] ps[i].key) != k,
        grouped(ps, k) is Some ==> grouped(ps, k)->Some_0.len() > 0,
{
    lemma_filter_empty(ps, has_key(k));
    assert forall|i: int| 0 <= i < ps.len() implies (has_key(k)(#[trigger] ps[i]) <==> decode(ps[i].key) == k) by {}
}

/// Swapping two neighbouring pairs whose keys decode differently changes
/// no group: the order of unrelated keys never touches a key's own values.
pub proof fn lemma_unrelated_order(x: Seq<RawPair>, y: Seq<RawPair>, p: RawPair, q: RawPair, k: Seq<u8>)
    requires
        decode(p.key) != decode(q.key),
    ensures
        grouped(x + seq![p, q] + y, k) == grouped(x + seq![q, p] + y, k),
{
    lemma_filter_swap(x, y, p, q, has_key(k));
}

/// A key span, ended by `&`, `=` or the end of the input.
pub struct Key<'a> {
    slice: &'a [u8],
}

impl<'a> Key<'a> {
    fn parse(slice: &'a [u8]) -> (r: Self)
        ensures
            r.slice@ == slice@.subrange(0, key_end(slice@, 0)),
    {
        let end = find_key_end(slice, 0);
        proof {
            lemma_key_end(slice@, 0);
        }
        Key { slice: slice_subrange(slice, 0, end) }
    }

    fn len(&self) -> (r: usize)
        ensures
            r == self.slice@.len(),
    {
        self.slice.len()
    }

    fn decode_to(&self) -> (r: Decoded<'a>)
        ensures
            r@ == decode(self.slice@),
            r is Borrowed <==> !has_escape(self.slice@),
            r is Borrowed ==> r->Borrowed_0 == self.slice,
    {
        parse_bytes(self.slice)
    }
}

/// A value span: what follows `=`, up to the next `&` or the end.
pub struct Value<'a>(&'a [u8]);

impl<'a> Value<'a> {
    fn parse(slice: &'a [u8]) -> (r: Option<Self>)
        ensures
            match r {
                Some(v) => value_of(slice@) == Some(v.0@),
                None => value_of(slice@) is None,
            },
    {
        if slice.len() == 0 || slice[0] == AMPERSAND {
            return None;
        }
        let end = find_pair_end(slice, 1);
        proof {
            lemma_pair_end(slice@, 1);
        }
        Some(Value(slice_subrange(slice, 1, end)))
    }

    fn len(&self) -> (r: usize)
        ensures
            r == self.0@.len(),
    {
        self.0.len()
    }

    fn decode_to(&self) -> (r: Decoded<'a>)
        ensures
            r@ == decode(self.0@),
            r is Borrowed <==> !has_escape(self.0@),
            r is Borrowed ==> r->Borrowed_0 == self.0,
    {
        parse_bytes(self.0)
    }

    /// The value's bytes, not decoded.
    pub fn slice(&self) -> (r: &'a [u8])
        ensures
            r@ == self@,
    {
        self.0
    }
}

impl<'a> View for Value<'a> {
    type V = Seq<u8>;

    closed spec fn view(&self) -> Seq<u8> {
        self.0@
    }
}

/// A key with its optional value.
pub struct Pair<'a>(Key<'a>, Option<Value<'a>>);

impl<'a> View for Pair<'a> {
    type V = RawPair;

    closed spec fn view(&self) -> RawPair {
        RawPair {
            key: self.0.slice@,
            value: match self.1 {
                Some(v) => Some(v.0@),
                None => None,
            },
        }
    }
}

impl<'a> Pair<'a> {
    /// The pair at the start of `slice`, and how many bytes it spans with
    /// the `&` that follows it (counted also where the input ends instead).
    fn parse(slice: &'a [u8]) -> (r: (Self, usize))
        requires
            slice@.len() < usize::MAX,
        ensures
            r.0@ == pair_of(slice@),
            r.1 == pair_span(slice@) + 1,
            r.1 <= slice@.len() + 1,
    {
        let key = Key::parse(slice);
        let kl = key.len();
        proof {
            lemma_key_end(slice@, 0);
        }
        let rest = slice_subrange(slice, kl, slice.len());
        let value = Value::parse(rest);
        proof {
            assert(rest@ == slice@.skip(kl as int));
            lemma_value_span(rest@);
        }
        let len = match &value {
            Some(v) => kl + v.len() + 2,
            None => kl + 1,
        };
        (Pair(key, value), len)
    }

    fn decoded_value(&self) -> (r: Option<Decoded<'a>>)
        ensures
            opt_view(r) == decoded_value(self@),
            decodes_from(r, self@.value),
    {
        match &self.1 {
            Some(v) => Some(v.decode_to()),
            None => None,
        }
    }

    fn raw_value(&self) -> (r: Option<&'a [u8]>)
        ensures
            opt_slice_view(r) == self@.value,
    {
        match &self.1 {
            Some(v) => Some(v.slice()),
            None => None,
        }
    }
}

/// A parsed query string: its pairs grouped by decoded key, keys in
/// increasing byte order, each group in the order its pairs were written.
pub struct DuplicateQueryString<'a> {
    pairs: Groups<'a, Pair<'a>>,
}

impl<'a> DuplicateQueryString<'a> {
    /// The internal invariant of the store.
    pub closed spec fn wf(&self) -> bool {
        self.pairs.wf()
    }

    /// The pairs whose key decodes to `k`, or `None` where there is none.
    pub closed spec fn group(&self, k: Seq<u8>) -> Option<Seq<RawPair>> {
        self.pairs.group(k)
    }

    /// Parses `slice`: every pair of it lands in the group of its decoded key.
    ///
    /// No slice in memory reaches `usize::MAX` bytes; the bound is stated
    /// so that a pair's length with its separator fits in `usize`.
    pub fn parse(slice: &'a [u8]) -> (r: Self)
        requires
            slice@.len() < usize::MAX,
        ensures
            r.wf(),
            forall|k: Seq<u8>| #[trigger] r.group(k) == grouped(pairs_of(slice@), k),
    {
        let mut pairs: Groups<'a, Pair<'a>> = Groups::new();
        let n = slice.len();
        let mut index: usize = 0;
        let ghost mut done: Seq<RawPair> = Seq::empty();
        proof {
            assert(slice@.subrange(0, n as int) =~= slice@);
            assert forall|k: Seq<u8>| #[trigger] pairs.group(k) == grouped(done, k) by {
                reveal(Seq::filter);
                assert(done.filter(has_key(k)) =~= Seq::<RawPair>::empty());
            }
        }
        while index < n
            invariant
                n == slice@.len(),
                n < usize::MAX,
                index <= n,
                pairs.wf(),
                pairs_of(slice@) == done + pairs_of(slice@.subrange(index as int, n as int)),
                forall|k: Seq<u8>| #[trigger] pairs.group(k) == grouped(done, k),
            decreases n - index,
        {
            let rest = slice_subrange(slice, index, n);
            let (pair, len) = Pair::parse(rest);
            let ghost pv = pair@;
            let ghost old_done = done;
            let key = pair.0.decode_to();
            let ghost old_pairs = pairs;
            pairs.insert(key, pair);
            proof {
                done = done.push(pv);
                assert forall|k: Seq<u8>| #[trigger] pairs.group(k) == grouped(done, k) by {
                    lemma_filter_push(old_done, pv, has_key(k));
                    assert(old_pairs.group(k) == grouped(old_done, k));
                }
                let t = slice@.subrange(index as int, n as int);
                assert(t.len() > 0);
                assert(pairs_of(t) == if pair_span(t) >= t.len() {
                    seq![pair_of(t)]
                } else {
                    seq![pair_of(t)] + pairs_of(t.skip(pair_span(t) + 1))
                });
            }
            if len > n - index {
                proof {
                    assert(pairs_of(slice@) =~= done);
                    assert(slice@.subrange(n as int, n as int) =~= Seq::<u8>::empty());
                    assert(pairs_of(slice@) =~= done + pairs_of(slice@.subrange(n as int, n as int)));
                }
                index = n;
            } else {
                proof {
                    let t = slice@.subrange(index as int, n as int);
                    assert(t.skip(len as int) =~= slice@.subrange(index + len, n as int));
                    assert(seq![pv] + pairs_of(t.skip(len as int)) == pairs_of(t));
                    assert(pairs_of(slice@) =~= done + pairs_of(slice@.subrange(index + len, n as int)));
                }
                index = index + len;
            }
        }
        DuplicateQueryString { pairs }
    }

    /// The decoded keys, in increasing byte order, each once.
    pub fn keys(&self) -> (r: Vec<&Decoded<'a>>)
        requires
            self.wf(),
        ensures
            strictly_sorted(r@.map_values(|d: &Decoded<'a>| d@)),
            forall|k: Seq<u8>|
                r@.map_values(|d: &Decoded<'a>| d@).contains(k) <==> #[trigger] self.group(k) is Some,
    {
        proof {
            self.pairs.lemma_keys();
        }
        self.pairs.keys()
    }

    /// Every value written under `key`, decoded, in the order written; `None`
    /// where no pair has that key.
    pub fn values(&self, key: &[u8]) -> (r: Option<Vec<Option<Decoded<'a>>>>)
        requires
            self.wf(),
        ensures
            match r {
                Some(v) => self.group(key@) is Some && v@.map_values(|o: Option<Decoded<'a>>| opt_view(o))
                    == self.group(key@)->Some_0.map_values(|p: RawPair| decoded_value(p))
                    && forall|i: int|
                    0 <= i < v@.len() ==> decodes_from(#[trigger] v@[i], self.group(key@)->Some_0[i].value),
                None => self.group(key@) is None,
            },
    {
        let group = match self.pairs.get(key) {
            Some(g) => g,
            None => return None,
        };
        let ghost gv = group@.map_values(|p: Pair<'a>| p@);
        let mut out: Vec<Option<Decoded<'a>>> = Vec::new();
        let mut i: usize = 0;
        while i < group.len()
            invariant
                i <= group@.len(),
                gv == group@.map_values(|p: Pair<'a>| p@),
                out@.len() == i,
                forall|j: int| 0 <= j < i ==> opt_view(#[trigger] out@[j]) == decoded_value(gv[j]),
                forall|j: int| 0 <= j < i ==> decodes_from(#[trigger] out@[j], gv[j].value),
            decreases group@.len() - i,
        {
            out.push(group[i].decoded_value());
            i += 1;
        }
        assert(out@.map_values(|o: Option<Decoded<'a>>| opt_view(o)) =~= gv.map_values(|p: RawPair| decoded_value(p)));
        Some(out)
    }

    /// The last value written under `key`, decoded: the outer `None` where no
    /// pair has that key, the inner one where the last such pair has no `=`.
    pub fn value(&self, key: &[u8]) -> (r: Option<Option<Decoded<'a>>>)
        requires
            self.wf(),
        ensures
            match r {
                Some(v) => self.group(key@) is Some && opt_view(v) == decoded_value(self.group(key@)->Some_0.last())
                    && decodes_from(v, self.group(key@)->Some_0.last().value),
                None => self.group(key@) is None,
            },
    {
        let group = match self.pairs.get(key) {
            Some(g) => g,
            None => return None,
        };
        proof {
            self.pairs.lemma_group_nonempty(key@);
        }
        let last = group.len() - 1;
        Some(group[last].decoded_value())
    }

    /// Every value written under `key`, as written (not decoded), in order;
    /// `None` where no pair has that key.
    pub fn raw_values(&self, key: &[u8]) -> (r: Option<Vec<Option<&'a [u8]>>>)
        requires
            self.wf(),
        ensures
            match r {
                Some(v) => self.group(key@) is Some && v@.map_values(|o: Option<&'a [u8]>| opt_slice_view(o))
                    == self.group(key@)->Some_0.map_values(|p: RawPair| p.value),
                None => self.group(key@) is None,
            },
    {
        let group = match self.pairs.get(key) {
            Some(g) => g,
            None => return None,
        };
        let ghost gv = group@.map_values(|p: Pair<'a>| p@);
        let mut out: Vec<Option<&'a [u8]>> = Vec::new();
        let mut i: usize = 0;
        while i < group.len()
            invariant
                i <= group@.len(),
                gv == group@.map_values(|p: Pair<'a>| p@),
                out@.len() == i,
                forall|j: int| 0 <= j < i ==> opt_slice_view(#[trigger] out@[j]) == gv[j].value,
            decreases group@.len() - i,
        {
            out.push(group[i].raw_value());
            i += 1;
        }
        assert(out@.map_values(|o: Option<&'a [u8]>| opt_slice_view(o)) =~= gv.map_values(|p: RawPair| p.value));
        Some(out)
    }

    /// The last value written under `key`, as written: the outer `None` where
    /// no pair has that key, the inner one where the last such pair has no `=`.
    pub fn raw_value(&self, key: &[u8]) -> (r: Option<Option<&'a [u8]>>)
        requires
            self.wf(),
        ensures
            match r {
                Some(v) => self.group(key@) is Some && opt_slice_view(v) == self.group(key@)->Some_0.last().value,
                None => self.group(key@) is None,
            },
    {
        let group = match self.pairs.get(key) {
            Some(g) => g,
            None => return None,
        };
        proof {
            self.pairs.lemma_group_nonempty(key@);
        }
        let last = group.len() - 1;
        Some(group[last].raw_value())
    }

    /// The groups, each with its decoded key and its values as written (an
    /// empty span for a pair without `=`), in increasing key order.
    pub fn into_iter(self) -> (r: Vec<(Decoded<'a>, Vec<&'a [u8]>)>)
        requires
            self.wf(),
        ensures
            strictly_sorted(r@.map_values(|e: (Decoded<'a>, Vec<&'a [u8]>)| e.0@)),
            forall|k: Seq<u8>|
                r@.map_values(|e: (Decoded<'a>, Vec<&'a [u8]>)| e.0@).contains(k) <==> #[trigger] self.group(k) is Some,
            forall|i: int|
                0 <= i < r@.len() ==> self.group((#[trigger] r@[i]).0@) is Some && r@[i].1@.map_values(
                    |v: &'a [u8]| v@,
                ) == self.group(r@[i].0@)->Some_0.map_values(|p: RawPair| raw_or_empty(p)),
    {
        let ghost keys = self.pairs.keys_view();
        proof {
            self.pairs.lemma_keys();
        }
        let ghost this = self;
        let mut entries = self.pairs.into_entries();
        let mut out: Vec<(Decoded<'a>, Vec<&'a [u8]>)> = Vec::new();
        let ghost all = entries@;
        let n = entries.len();
        let mut i: usize = 0;
        while i < n
            invariant
                n == all.len(),
                n == keys.len(),
                i <= n,
                entries@ == all.subrange(i as int, n as int),
                forall|j: int| 0 <= j < n ==> (#[trigger] all[j]).key@ == keys[j],
                out@.len() == i,
                forall|j: int|
                    0 <= j < i ==> (#[trigger] out@[j]).0@ == keys[j] && out@[j].1@.map_values(
                        |v: &'a [u8]| v@,
                    ) == all[j].pairs@.map_values(|p: Pair<'a>| raw_or_empty(p@)),
            decreases n - i,
        {
            let e = entries.remove(0);
            assert(e == all[i as int]);
            assert(entries@ =~= all.subrange(i + 1, n as int));
            let mut raw: Vec<&'a [u8]> = Vec::new();
            let mut j: usize = 0;
            while j < e.pairs.len()
                invariant
                    j <= e.pairs@.len(),
                    raw@.len() == j,
                    forall|m: int| 0 <= m < j ==> (#[trigger] raw@[m])@ == raw_or_empty(e.pairs@[m]@),
                decreases e.pairs@.len() - j,
            {
                let p = &e.pairs[j];
                let v = match &p.1 {
                    Some(v) => v.slice(),
                    None => slice_subrange(p.0.slice, 0, 0),
                };
                raw.push(v);
                j += 1;
            }
            assert(raw@.map_values(|v: &'a [u8]| v@) =~= e.pairs@.map_values(|p: Pair<'a>| raw_or_empty(p@)));
            let ghost prev = out@;
            out.push((e.key, raw));
            assert forall|m: int| 0 <= m < i + 1 implies (#[trigger] out@[m]).0@ == keys[m] && out@[m].1@.map_values(
                |v: &'a [u8]| v@,
            ) == all[m].pairs@.map_values(|p: Pair<'a>| raw_or_empty(p@)) by {
                if m < i {
                    assert(out@[m] == prev[m]);
                }
            }
            i += 1;
        }
        proof {
            assert(out@.map_values(|e: (Decoded<'a>, Vec<&'a [u8]>)| e.0@) =~= keys);
            assert forall|j: int| 0 <= j < out@.len() implies this.group((#[trigger] out@[j]).0@) is Some && out@[j].1@.map_values(
                |v: &'a [u8]| v@,
            ) == this.group(out@[j].0@)->Some_0.map_values(|p: RawPair| raw_or_empty(p)) by {
                assert(all[j].key@ == keys[j]);
                let g = all[j].pairs@.map_values(|p: Pair<'a>| p@);
                assert(g.map_values(|p: RawPair| raw_or_empty(p)) =~= all[j].pairs@.map_values(|p: Pair<'a>| raw_or_empty(p@)));
            }
        }
        out
    }
}

} // verus!
