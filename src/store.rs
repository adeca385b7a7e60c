//! An ordered multimap from decoded keys to the pairs that share them.
use vstd::prelude::*;

use crate::decode::Decoded;

verus! {

/// Byte-lexicographic order on `a` and `b`, compared from position `i` on.
pub open spec fn lex_lt_from(a: Seq<u8>, b: Seq<u8>, i: int) -> bool
    decreases a.len() - i,
{
    if i < 0 || i >= a.len() {
        0 <= i < b.len()
    } else if i >= b.len() {
        false
    } else if a[i] != b[i] {
        a[i] < b[i]
    } else {
        lex_lt_from(a, b, i + 1)
    }
}

/// `a` sorts strictly before `b` in byte-lexicographic order.
pub open spec fn lex_lt(a: Seq<u8>, b: Seq<u8>) -> bool {
    lex_lt_from(a, b, 0)
}

/// Every key sorts strictly before the keys after it.
pub open spec fn strictly_sorted(keys: Seq<Seq<u8>>) -> bool {
    forall|i: int, j: int| 0 <= i < j < keys.len() ==> lex_lt(keys[i], keys[j])
}

proof fn lemma_lex_irreflexive_from(a: Seq<u8>, i: int)
    requires
        0 <= i,
    ensures
        !lex_lt_from(a, a, i),
    decreases a.len() - i,
{
    if i < a.len() {
        lemma_lex_irreflexive_from(a, i + 1);
    }
}

/// No key sorts before itself.
pub proof fn lemma_lex_irreflexive(a: Seq<u8>)
    ensures
        !lex_lt(a, a),
{
    lemma_lex_irreflexive_from(a, 0);
}

proof fn lemma_lex_transitive_from(a: Seq<u8>, b: Seq<u8>, c: Seq<u8>, i: int)
    requires
        0 <= i,
        lex_lt_from(a, b, i),
        lex_lt_from(b, c, i),
    ensures
        lex_lt_from(a, c, i),
    decreases a.len() - i,
{
    if i < a.len() && i < b.len() && i < c.len() && a[i] == b[i] && b[i] == c[i] {
        lemma_lex_transitive_from(a, b, c, i + 1);
    }
}

/// The order is transitive.
pub proof fn lemma_lex_transitive(a: Seq<u8>, b: Seq<u8>, c: Seq<u8>)
    requires
        lex_lt(a, b),
        lex_lt(b, c),
    ensures
        lex_lt(a, c),
{
    lemma_lex_transitive_from(a, b, c, 0);
}

proof fn lemma_lex_total_from(a: Seq<u8>, b: Seq<u8>, i: int)
    requires
        0 <= i <= a.len(),
        i <= b.len(),
        a.subrange(0, i) == b.subrange(0, i),
        a != b,
    ensures
        lex_lt_from(a, b, i) || lex_lt_from(b, a, i),
    decreases a.len() - i,
{
    if i == a.len() && i == b.len() {
        assert(a =~= a.subrange(0, i));
        assert(b =~= b.subrange(0, i));
    } else if i < a.len() && i < b.len() && a[i] == b[i] {
        assert(a.subrange(0, i + 1) =~= a.subrange(0, i).push(a[i]));
        assert(b.subrange(0, i + 1) =~= b.subrange(0, i).push(b[i]));
        lemma_lex_total_from(a, b, i + 1);
    }
}

/// Two different keys are ordered one way or the other.
pub proof fn lemma_lex_total(a: Seq<u8>, b: Seq<u8>)
    requires
        a != b,
    ensures
        lex_lt(a, b) || lex_lt(b, a),
{
    assert(a.subrange(0, 0) =~= b.subrange(0, 0));
    lemma_lex_total_from(a, b, 0);
}

/// Filtering a sequence with one more element at the end adds that element
/// at the end exactly where it passes `f`.
pub proof fn lemma_filter_push<A>(s: Seq<A>, p: A, f: spec_fn(A) -> bool)
    ensures
        s.push(p).filter(f) == if f(p) {
            s.filter(f).push(p)
        } else {
            s.filter(f)
        },
{
    reveal(Seq::filter);
    assert(s.push(p).drop_last() =~= s);
}

/// `filter_map` distributes over concatenation.
pub proof fn lemma_filter_map_add<A, B>(x: Seq<A>, y: Seq<A>, f: spec_fn(A) -> Option<B>)
    ensures
        (x + y).filter_map(f) == x.filter_map(f) + y.filter_map(f),
    decreases y.len(),
{
    if y.len() == 0 {
        assert(x + y =~= x);
        assert(x.filter_map(f) + y.filter_map(f) =~= x.filter_map(f));
    } else {
        lemma_filter_map_add(x, y.drop_last(), f);
        assert((x + y).drop_last() =~= x + y.drop_last());
        assert((x + y).last() == y.last());
        match f(y.last()) {
            Some(v) => {
                assert(x.filter_map(f) + y.drop_last().filter_map(f) + seq![v] =~= x.filter_map(f) + (
                y.drop_last().filter_map(f) + seq![v]));
            },
            None => {},
        }
    }
}

/// `filter_map` keeps what it keeps in order: where `i < j` and `f` maps
/// both `s[i]` and `s[j]` to something, the image of `s[i]` comes first.
pub proof fn lemma_filter_map_keeps_order<A, B>(s: Seq<A>, f: spec_fn(A) -> Option<B>, i: int, j: int)
    requires
        0 <= i < j < s.len(),
        f(s[i]) is Some,
        f(s[j]) is Some,
    ensures
        exists|a: int, b: int|
            0 <= a < b < s.filter_map(f).len() && s.filter_map(f)[a] == f(s[i])->Some_0
                && s.filter_map(f)[b] == f(s[j])->Some_0,
{
    let x = s.take(i);
    let y = s.subrange(i + 1, j);
    let z = s.subrange(j + 1, s.len() as int);
    assert(s =~= x + seq![s[i]] + y + seq![s[j]] + z);
    assert(seq![s[i]].drop_last() =~= Seq::<A>::empty());
    assert(seq![s[j]].drop_last() =~= Seq::<A>::empty());
    assert(Seq::<A>::empty().filter_map(f) =~= Seq::<B>::empty());
    assert(seq![s[i]].filter_map(f) =~= seq![f(s[i])->Some_0]);
    assert(seq![s[j]].filter_map(f) =~= seq![f(s[j])->Some_0]);
    lemma_filter_map_add(x + seq![s[i]] + y + seq![s[j]], z, f);
    lemma_filter_map_add(x + seq![s[i]] + y, seq![s[j]], f);
    lemma_filter_map_add(x + seq![s[i]], y, f);
    lemma_filter_map_add(x, seq![s[i]], f);
    let fx = x.filter_map(f);
    let fy = y.filter_map(f);
    let fz = z.filter_map(f);
    let whole = fx + seq![f(s[i])->Some_0] + fy + seq![f(s[j])->Some_0] + fz;
    assert(s.filter_map(f) == whole);
    let a = fx.len() as int;
    let b = (fx.len() + 1 + fy.len()) as int;
    assert(whole[a] == f(s[i])->Some_0);
    assert(whole[b] == f(s[j])->Some_0);
}

/// Filtering keeps the elements it keeps in their order: where `i < j`
/// and both pass `f`, `s[i]` comes before `s[j]` in `s.filter(f)`.
pub proof fn lemma_filter_keeps_order<A>(s: Seq<A>, f: spec_fn(A) -> bool, i: int, j: int)
    requires
        0 <= i < j < s.len(),
        f(s[i]),
        f(s[j]),
    ensures
        exists|a: int, b: int|
            0 <= a < b < s.filter(f).len() && s.filter(f)[a] == s[i] && s.filter(f)[b] == s[j],
{
    let x = s.take(i);
    let y = s.subrange(i + 1, j);
    let z = s.subrange(j + 1, s.len() as int);
    assert(s =~= x + seq![s[i]] + y + seq![s[j]] + z);
    reveal(Seq::filter);
    assert(seq![s[i]].filter(f) =~= seq![s[i]]) by {
        assert(seq![s[i]].drop_last() =~= Seq::<A>::empty());
    }
    assert(seq![s[j]].filter(f) =~= seq![s[j]]) by {
        assert(seq![s[j]].drop_last() =~= Seq::<A>::empty());
    }
    Seq::filter_distributes_over_add(x + seq![s[i]] + y + seq![s[j]], z, f);
    Seq::filter_distributes_over_add(x + seq![s[i]] + y, seq![s[j]], f);
    Seq::filter_distributes_over_add(x + seq![s[i]], y, f);
    Seq::filter_distributes_over_add(x, seq![s[i]], f);
    let fx = x.filter(f);
    let fy = y.filter(f);
    let fz = z.filter(f);
    let whole = fx + seq![s[i]] + fy + seq![s[j]] + fz;
    assert(s.filter(f) == whole);
    let a = fx.len() as int;
    let b = (fx.len() + 1 + fy.len()) as int;
    assert(whole[a] == s[i]);
    assert(whole[b] == s[j]);
}

/// Swapping two neighbours that `f` does not both keep leaves the
/// filtered sequence as it was.
pub proof fn lemma_filter_swap<A>(x: Seq<A>, y: Seq<A>, p: A, q: A, f: spec_fn(A) -> bool)
    requires
        !(f(p) && f(q)),
    ensures
        (x + seq![p, q] + y).filter(f) == (x + seq![q, p] + y).filter(f),
{
    reveal(Seq::filter);
    Seq::filter_distributes_over_add(x + seq![p, q], y, f);
    Seq::filter_distributes_over_add(x + seq![q, p], y, f);
    Seq::filter_distributes_over_add(x, seq![p, q], f);
    Seq::filter_distributes_over_add(x, seq![q, p], f);
    assert(seq![p, q].drop_last() =~= seq![p]);
    assert(seq![q, p].drop_last() =~= seq![q]);
    assert(seq![p].drop_last() =~= Seq::<A>::empty());
    assert(seq![q].drop_last() =~= Seq::<A>::empty());
    assert(Seq::<A>::empty().filter(f) =~= Seq::<A>::empty());
    if f(p) {
        assert(seq![p].filter(f) =~= seq![p]);
        assert(seq![q].filter(f) =~= Seq::<A>::empty());
        assert(seq![p, q].filter(f) =~= seq![p]);
        assert(seq![q, p].filter(f) =~= seq![p]);
    } else if f(q) {
        assert(seq![p].filter(f) =~= Seq::<A>::empty());
        assert(seq![q].filter(f) =~= seq![q]);
        assert(seq![p, q].filter(f) =~= seq![q]);
        assert(seq![q, p].filter(f) =~= seq![q]);
    } else {
        assert(seq![p].filter(f) =~= Seq::<A>::empty());
        assert(seq![q].filter(f) =~= Seq::<A>::empty());
        assert(seq![p, q].filter(f) =~= Seq::<A>::empty());
        assert(seq![q, p].filter(f) =~= Seq::<A>::empty());
    }
}

/// A filtered sequence is empty exactly when no element passes `f`.
pub proof fn lemma_filter_empty<A>(s: Seq<A>, f: spec_fn(A) -> bool)
    ensures
        s.filter(f).len() == 0 <==> forall|i: int| 0 <= i < s.len() ==> !f(#[trigger] s[i]),
{
    if s.filter(f).len() > 0 {
        s.lemma_filter_pred(f, 0);
        let e = s.filter(f)[0];
        s.lemma_filter_contains_rev(f, e);
    }
    assert forall|i: int| 0 <= i < s.len() && f(s[i]) implies s.filter(f).len() > 0 by {
        s.lemma_filter_contains(f, i);
    }
}

/// Compares two byte strings: negative, zero or positive as `a` sorts before,
/// equal to, or after `b`.
pub fn compare_bytes(a: &[u8], b: &[u8]) -> (r: i8)
    ensures
        r == 0 <==> a@ == b@,
        r < 0 <==> lex_lt(a@, b@),
        r > 0 <==> lex_lt(b@, a@),
{
    let mut i: usize = 0;
    proof {
        lemma_lex_irreflexive(a@);
    }
    while i < a.len() && i < b.len()
        invariant
            i <= a@.len(),
            i <= b@.len(),
            a@.subrange(0, i as int) == b@.subrange(0, i as int),
            lex_lt(a@, b@) == lex_lt_from(a@, b@, i as int),
            lex_lt(b@, a@) == lex_lt_from(b@, a@, i as int),
        decreases a@.len() - i,
    {
        if a[i] != b[i] {
            proof {
                assert(a@[i as int] != b@[i as int]);
            }
            if a[i] < b[i] {
                return -1;
            } else {
                return 1;
            }
        }
        proof {
            assert(a@.subrange(0, i + 1) =~= a@.subrange(0, i as int).push(a@[i as int]));
            assert(b@.subrange(0, i + 1) =~= b@.subrange(0, i as int).push(b@[i as int]));
        }
        i += 1;
    }
    if i < b.len() {
        proof {
            assert(a@.len() != b@.len());
        }
        -1
    } else if i < a.len() {
        proof {
            assert(a@.len() != b@.len());
        }
        1
    } else {
        proof {
            assert(a@ =~= a@.subrange(0, i as int));
            assert(b@ =~= b@.subrange(0, i as int));
        }
        0
    }
}

/// One group: a decoded key and the pairs that carry it, in the order met.
pub struct Entry<'a, P> {
    pub key: Decoded<'a>,
    pub pairs: Vec<P>,
}

/// Groups of pairs by decoded key, held in increasing key order.
pub struct Groups<'a, P: View> {
    entries: Vec<Entry<'a, P>>,
    model: Ghost<Map<Seq<u8>, Seq<P::V>>>,
}

impl<'a, P: View> Groups<'a, P> {
    /// The keys, in the order held.
    pub closed spec fn keys_view(&self) -> Seq<Seq<u8>> {
        self.entries@.map_values(|e: Entry<'a, P>| e.key@)
    }

    closed spec fn pairs_view(&self, i: int) -> Seq<P::V> {
        self.entries@[i].pairs@.map_values(|p: P| p@)
    }

    /// The pairs grouped under `k`, or `None` where no pair has that key.
    pub closed spec fn group(&self, k: Seq<u8>) -> Option<Seq<P::V>> {
        if self.model@.contains_key(k) {
            Some(self.model@[k])
        } else {
            None
        }
    }

    /// Keys are sorted and distinct, each group is non-empty, and the groups
    /// are exactly those held.
    pub closed spec fn wf(&self) -> bool {
        &&& strictly_sorted(self.keys_view())
        &&& forall|i: int|
            0 <= i < self.entries@.len() ==> {
                &&& #[trigger] self.model@.contains_key(self.keys_view()[i])
                &&& self.model@[self.keys_view()[i]] == self.pairs_view(i)
                &&& self.entries@[i].pairs@.len() > 0
            }
        &&& forall|k: Seq<u8>| #[trigger]
            self.model@.contains_key(k) ==> exists|i: int|
                0 <= i < self.entries@.len() && self.keys_view()[i] == k
    }

    /// A group that exists holds at least one pair.
    pub proof fn lemma_group_nonempty(&self, k: Seq<u8>)
        requires
            self.wf(),
            self.group(k) is Some,
        ensures
            self.group(k)->Some_0.len() > 0,
    {
        let i = choose|i: int| 0 <= i < self.entries@.len() && self.keys_view()[i] == k;
        assert(self.model@.contains_key(self.keys_view()[i]));
    }

    /// No groups at all.
    pub fn new() -> (r: Self)
        ensures
            r.wf(),
            forall|k: Seq<u8>| r.group(k) is None,
    {
        Groups { entries: Vec::new(), model: Ghost(Map::empty()) }
    }

    /// Adds `p` at the end of the group of `key`, making the group where
    /// there is none.
    pub fn insert(&mut self, key: Decoded<'a>, p: P)
        requires
            old(self).wf(),
        ensures
            final(self).wf(),
            forall|k: Seq<u8>|
                #[trigger] final(self).group(k) == if k == key@ {
                    Some(
                        match old(self).group(k) {
                            Some(g) => g.push(p@),
                            None => seq![p@],
                        },
                    )
                } else {
                    old(self).group(k)
                },
    {
        let ghost old_keys = self.keys_view();
        let ghost old_entries = self.entries@;
        let ghost old_model = self.model@;
        let ghost kv = key@;
        let n = self.entries.len();
        let mut i: usize = 0;
        while i < n
            invariant
                n == self.entries@.len(),
                i <= n,
                self.wf(),
                self.keys_view() == old_keys,
                self.entries@ == old_entries,
                self.model@ == old_model,
                kv == key@,
                old_keys == old(self).keys_view(),
                old_entries == old(self).entries@,
                old_model == old(self).model@,
                forall|j: int| 0 <= j < i ==> lex_lt(old_keys[j], kv),
            decreases n - i,
        {
            let ka = key.as_slice();
            let kb = self.entries[i].key.as_slice();
            assert(ka@ == kv);
            assert(self.entries@[i as int].key@ == old_keys[i as int]);
            assert(kb@ == old_keys[i as int]);
            let c = compare_bytes(ka, kb);
            if c == 0 {
                let ghost pv = p@;
                assert(self.model@.contains_key(old_keys[i as int]));
                let ghost g = self.model@[kv];
                assert(g == old(self).pairs_view(i as int));
                let mut e = self.entries.remove(i);
                e.pairs.push(p);
                let ghost ne = e;
                self.entries.insert(i, e);
                assert(self.entries@ =~= old_entries.update(i as int, ne));
                self.model = Ghost(self.model@.insert(kv, g.push(pv)));
                proof {
                    assert(self.keys_view() =~= old_keys);
                    assert(self.pairs_view(i as int) =~= g.push(pv));
                assert forall|j: int| 0 <= j < n && j != i implies self.pairs_view(j) == old(self).pairs_view(j) by {
                    assert(self.entries@[j] == old_entries[j]);
                }
                    assert forall|j: int| 0 <= j < n && j != i implies self.keys_view()[j] != kv by {
                        lemma_lex_irreflexive(kv);
                        if j < i {
                            assert(lex_lt(old_keys[j], old_keys[i as int]));
                        } else {
                            assert(lex_lt(old_keys[i as int], old_keys[j]));
                        }
                    }
                }
                return;
            } else if c < 0 {
                assert(lex_lt(kv, old_keys[i as int]));
                let ghost pv = p@;
                let ne = Entry { key, pairs: vec![p] };
                let ghost nev = ne;
                self.entries.insert(i, ne);
                assert(self.entries@ == old_entries.insert(i as int, nev));
                self.model = Ghost(self.model@.insert(kv, seq![p@]));
                proof {
                    assert forall|j: int| 0 <= j < n + 1 implies self.keys_view()[j] == old_keys.insert(i as int, kv)[j] by {
                        if j < i {
                            assert(self.entries@[j] == old_entries[j]);
                        } else if j > i {
                            assert(self.entries@[j] == old_entries[j - 1]);
                        }
                    }
                    assert(self.keys_view() =~= old_keys.insert(i as int, kv));
                    assert forall|j: int| 0 <= j < n + 1 implies #[trigger] self.model@.contains_key(self.keys_view()[j]) && self.model@[self.keys_view()[j]] == self.pairs_view(j) && self.entries@[j].pairs@.len() > 0 by {
                        if j > i {
                            assert(lex_lt(kv, old_keys[j - 1])) by {
                                if j - 1 > i {
                                    lemma_lex_transitive(kv, old_keys[i as int], old_keys[j - 1]);
                                }
                            }
                            lemma_lex_irreflexive(kv);
                            assert(self.entries@[j] == old_entries[j - 1]);
                            assert(self.keys_view()[j] == old_keys[j - 1]);
                            assert(old(self).model@.contains_key(old(self).keys_view()[j - 1]));
                            assert(self.pairs_view(j) == old(self).pairs_view(j - 1));
                        } else if j < i {
                            lemma_lex_irreflexive(kv);
                            assert(self.entries@[j] == old_entries[j]);
                            assert(self.keys_view()[j] == old_keys[j]);
                            assert(old(self).model@.contains_key(old(self).keys_view()[j]));
                            assert(self.pairs_view(j) == old(self).pairs_view(j));
                        } else {
                            assert(self.pairs_view(j) =~= seq![p@]);
                        }
                    }
                    assert forall|a: int, b: int| 0 <= a < b < n + 1 implies lex_lt(self.keys_view()[a], self.keys_view()[b]) by {
                        if b == i {
                        } else if a == i {
                            if b - 1 > i {
                                lemma_lex_transitive(kv, old_keys[i as int], old_keys[b - 1]);
                            }
                        }
                    }
                    assert forall|k: Seq<u8>| #[trigger] self.model@.contains_key(k) implies exists|j: int| 0 <= j < self.entries@.len() && self.keys_view()[j] == k by {
                        if k == kv {
                            assert(self.keys_view()[i as int] == k);
                        } else {
                            let j = choose|j: int| 0 <= j < n && old_keys[j] == k;
                            if j < i {
                                assert(self.keys_view()[j] == k);
                            } else {
                                assert(self.keys_view()[j + 1] == k);
                            }
                        }
                    }
                    assert forall|j: int| 0 <= j < n implies old_keys[j] != kv by {
                        lemma_lex_irreflexive(kv);
                        if j >= i {
                            if j > i {
                                lemma_lex_transitive(kv, old_keys[i as int], old_keys[j]);
                            }
                        }
                    }
                    assert(!old_model.contains_key(kv));
                }
                return;
            }
            proof {
                lemma_lex_total(kv, old_keys[i as int]);
            }
            i += 1;
        }
        let ne = Entry { key, pairs: vec![p] };
        let ghost nev = ne;
        self.entries.push(ne);
        assert(self.entries@ == old_entries.push(nev));
        self.model = Ghost(self.model@.insert(kv, seq![p@]));
        proof {
            assert forall|j: int| 0 <= j < n + 1 implies self.keys_view()[j] == old_keys.push(kv)[j] by {
                if j < n {
                    assert(self.entries@[j] == old_entries[j]);
                }
            }
            assert(self.keys_view() =~= old_keys.push(kv));
            assert forall|j: int| 0 <= j < n implies old_keys[j] != kv by {
                lemma_lex_irreflexive(kv);
            }
            assert(!old_model.contains_key(kv));
            assert forall|j: int| 0 <= j < n + 1 implies #[trigger] self.model@.contains_key(self.keys_view()[j]) && self.model@[self.keys_view()[j]] == self.pairs_view(j) && self.entries@[j].pairs@.len() > 0 by {
                if j < n {
                    assert(self.entries@[j] == old_entries[j]);
                    assert(self.pairs_view(j) == old(self).pairs_view(j));
                } else {
                    assert(self.pairs_view(j) =~= seq![p@]);
                }
            }
            assert forall|k: Seq<u8>| #[trigger] self.model@.contains_key(k) implies exists|j: int| 0 <= j < self.entries@.len() && self.keys_view()[j] == k by {
                if k == kv {
                    assert(self.keys_view()[n as int] == k);
                } else {
                    let j = choose|j: int| 0 <= j < n && old_keys[j] == k;
                    assert(self.keys_view()[j] == k);
                }
            }
        }
    }

    /// The held keys are sorted, distinct, and exactly those with a group.
    pub proof fn lemma_keys(&self)
        requires
            self.wf(),
        ensures
            strictly_sorted(self.keys_view()),
            forall|k: Seq<u8>| self.keys_view().contains(k) <==> #[trigger] self.group(k) is Some,
    {
        assert forall|k: Seq<u8>| self.keys_view().contains(k) <==> #[trigger] self.group(k) is Some by {
            if self.keys_view().contains(k) {
                let i = choose|i: int| 0 <= i < self.keys_view().len() && self.keys_view()[i] == k;
                assert(self.model@.contains_key(self.keys_view()[i]));
            }
            if self.model@.contains_key(k) {
                let i = choose|i: int| 0 <= i < self.entries@.len() && self.keys_view()[i] == k;
                assert(self.keys_view()[i] == k);
            }
        }
    }

    /// The keys, in increasing order.
    pub fn keys(&self) -> (r: Vec<&Decoded<'a>>)
        requires
            self.wf(),
        ensures
            r@.map_values(|d: &Decoded<'a>| d@) == self.keys_view(),
    {
        let mut r: Vec<&Decoded<'a>> = Vec::new();
        let mut i: usize = 0;
        while i < self.entries.len()
            invariant
                self.wf(),
                i <= self.entries@.len(),
                r@.len() == i,
                r@.map_values(|d: &Decoded<'a>| d@) == self.keys_view().subrange(0, i as int),
            decreases self.entries@.len() - i,
        {
            let ghost prev = r@;
            let d = &self.entries[i].key;
            r.push(d);
            assert(r@ == prev.push(d));
            assert(d@ == self.keys_view()[i as int]);
            assert forall|j: int| 0 <= j < i implies r@[j]@ == self.keys_view()[j] by {
                assert(r@[j] == prev[j]);
                assert(prev.map_values(|d: &Decoded<'a>| d@)[j] == self.keys_view().subrange(0, i as int)[j]);
            }
            assert(r@.map_values(|d: &Decoded<'a>| d@) =~= self.keys_view().subrange(0, i + 1));
            i += 1;
        }
        assert(self.keys_view().subrange(0, i as int) =~= self.keys_view());
        r
    }

    /// The pairs grouped under `k`, if any pair has that key.
    pub fn get(&self, k: &[u8]) -> (r: Option<&Vec<P>>)
        requires
            self.wf(),
        ensures
            match r {
                Some(v) => self.group(k@) == Some(v@.map_values(|p: P| p@)),
                None => self.group(k@) is None,
            },
    {
        let mut i: usize = 0;
        while i < self.entries.len()
            invariant
                self.wf(),
                i <= self.entries@.len(),
                forall|j: int| 0 <= j < i ==> self.keys_view()[j] != k@,
            decreases self.entries@.len() - i,
        {
            if compare_bytes(k, self.entries[i].key.as_slice()) == 0 {
                assert(self.model@.contains_key(self.keys_view()[i as int]));
                return Some(&self.entries[i].pairs);
            }
            i += 1;
        }
        proof {
            if self.model@.contains_key(k@) {
                let j = choose|j: int| 0 <= j < self.entries@.len() && self.keys_view()[j] == k@;
                assert(self.keys_view()[j] == k@);
            }
        }
        None
    }

    /// Takes the groups apart: one entry per key, in increasing key order,
    /// each with its pairs in the order met.
    pub fn into_entries(self) -> (r: Vec<Entry<'a, P>>)
        requires
            self.wf(),
        ensures
            r@.len() == self.keys_view().len(),
            forall|i: int|
                0 <= i < r@.len() ==> (#[trigger] r@[i]).key@ == self.keys_view()[i] && self.group(
                    self.keys_view()[i],
                ) == Some(r@[i].pairs@.map_values(|p: P| p@)),
    {
        proof {
            assert forall|i: int| 0 <= i < self.entries@.len() implies self.group(self.keys_view()[i])
                == Some(self.entries@[i].pairs@.map_values(|p: P| p@)) by {
                assert(self.model@.contains_key(self.keys_view()[i]));
            }
        }
        self.entries
    }
}

} // verus!
