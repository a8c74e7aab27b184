//! Deterministic ordering of records by a string-tuple key.
use vstd::prelude::*;

use vstd::multiset::Multiset;
use crate::text::{str_eq, str_lt, lemma_keys_lt_cons, keys_lt, lemma_keys_lt_asymmetric, lemma_keys_lt_transitive, lemma_keys_lt_total, seq_lt, views, lemma_seq_lt_total, lemma_seq_lt_transitive, lemma_keys_lt_irreflexive};

verus! {

broadcast use vstd::seq_lib::group_to_multiset_ensures;

/// A record ordered by the lexicographic order of a tuple of strings.
pub trait SortKey: Sized {
    spec fn sort_key(&self) -> Seq<Seq<char>>;

    fn key_lt(&self, other: &Self) -> (r: bool)
        ensures
            r == keys_lt(self.sort_key(), other.sort_key()),
    ;
}

/// Non-decreasing by key.
pub open spec fn sorted_by_key<T: SortKey>(s: Seq<T>) -> bool {
    forall|i: int, j: int| 0 <= i < j < s.len() ==> !keys_lt(s[j].sort_key(), s[i].sort_key())
}

/// The elements of `s` whose key is `k`, in order.
pub open spec fn key_filter<T: SortKey>(s: Seq<T>, k: Seq<Seq<char>>) -> Seq<T> {
    s.filter(has_key(k))
}

/// Whether an element has key `k`.
pub open spec fn has_key<T: SortKey>(k: Seq<Seq<char>>) -> spec_fn(T) -> bool {
    |x: T| x.sort_key() == k
}

proof fn lemma_key_filter_insert<T: SortKey>(s: Seq<T>, p: int, x: T, k: Seq<Seq<char>>)
    requires
        0 <= p <= s.len(),
        forall|i: int| 0 <= i < p ==> keys_lt(#[trigger] s[i].sort_key(), x.sort_key()),
    ensures
        key_filter(s.insert(p, x), k) == if x.sort_key() == k { seq![x] + key_filter(s, k) } else { key_filter(s, k) },
{
    let f = has_key::<T>(k);
    let a = s.take(p);
    let b = s.skip(p);
    assert(s =~= a + b);
    assert(s.insert(p, x) =~= a + (seq![x] + b));
    Seq::filter_distributes_over_add(a, b, f);
    Seq::filter_distributes_over_add(a, seq![x] + b, f);
    Seq::filter_distributes_over_add(seq![x], b, f);
    assert(seq![x].filter(f) =~= if f(x) { seq![x] } else { Seq::<T>::empty() }) by {
        reveal_with_fuel(Seq::filter, 2);
        assert(seq![x].drop_last() =~= Seq::<T>::empty());
    }
    if x.sort_key() == k {
        assert forall|i: int| 0 <= i < a.len() implies !f(#[trigger] a[i]) by {
            assert(a[i] == s[i]);
            lemma_keys_lt_irreflexive(x.sort_key());
        }
        a.lemma_all_neg_filter_empty(f);
        assert(a.filter(f) =~= Seq::<T>::empty());
        assert(key_filter(s, k) =~= b.filter(f));
        assert(key_filter(s.insert(p, x), k) =~= seq![x] + b.filter(f));
    } else {
        assert(key_filter(s.insert(p, x), k) =~= a.filter(f) + b.filter(f));
    }
}

proof fn lemma_key_filter_push<T: SortKey>(s: Seq<T>, x: T, k: Seq<Seq<char>>)
    ensures
        key_filter(s.push(x), k) == if x.sort_key() == k { key_filter(s, k).push(x) } else { key_filter(s, k) },
{
    let f = has_key::<T>(k);
    s.lemma_filter_push(x, f);
}

/// Stable sort by key: a permutation of the input, non-decreasing by key,
/// that keeps the input order among equal keys.
pub fn sort_by_key<T: SortKey>(v: Vec<T>) -> (out: Vec<T>)
    ensures
        out@.to_multiset() == v@.to_multiset(),
        out@.len() == v@.len(),
        sorted_by_key(out@),
        forall|k: Seq<Seq<char>>| #[trigger] key_filter(out@, k) == key_filter(v@, k),
{
    let ghost original = v@;
    let mut rest = v;
    let mut out: Vec<T> = Vec::new();
    proof {
        assert forall|k: Seq<Seq<char>>| #[trigger] key_filter(original, k) == key_filter(rest@, k) + key_filter(out@, k) by {
            assert(key_filter(out@, k) =~= Seq::<T>::empty());
            assert(key_filter(rest@, k) + key_filter(out@, k) =~= key_filter(rest@, k));
        }
    }
    while rest.len() > 0
        invariant
            rest@.to_multiset().add(out@.to_multiset()) == original.to_multiset(),
            rest@.len() + out@.len() == original.len(),
            sorted_by_key(out@),
            forall|k: Seq<Seq<char>>| #[trigger] key_filter(original, k) == key_filter(rest@, k) + key_filter(out@, k),
        decreases rest@.len(),
    {
        let ghost before_rest = rest@;
        let ghost before_out = out@;
        let x = rest.pop().unwrap();
        assert(before_rest =~= rest@.push(x));
        // first position whose element is not below x
        let mut p: usize = 0;
        while p < out.len() && out[p].key_lt(&x)
            invariant
                p <= out@.len(),
                out@ == before_out,
                forall|i: int| 0 <= i < p ==> keys_lt(out@[i].sort_key(), x.sort_key()),
            decreases out@.len() - p,
        {
            p += 1;
        }
        proof {
            if p < out@.len() {
                assert(!keys_lt(out@[p as int].sort_key(), x.sort_key()));
                assert forall|j: int| p <= j < out@.len() implies !keys_lt(
                    out@[j].sort_key(),
                    x.sort_key(),
                ) by {
                    if j > p && keys_lt(out@[j].sort_key(), x.sort_key()) {
                        assert(!keys_lt(out@[j].sort_key(), out@[p as int].sort_key()));
                        lemma_keys_lt_total(out@[j].sort_key(), out@[p as int].sort_key());
                        if out@[j].sort_key() != out@[p as int].sort_key() {
                            lemma_keys_lt_transitive(
                                out@[p as int].sort_key(),
                                out@[j].sort_key(),
                                x.sort_key(),
                            );
                        }
                    }
                }
            }
        }
        out.insert(p, x);
        proof {
            vstd::seq_lib::to_multiset_insert(before_out, p as int, x);
            assert forall|i: int, j: int| 0 <= i < j < out@.len() implies !keys_lt(
                out@[j].sort_key(),
                out@[i].sort_key(),
            ) by {
                if i == p {
                    // out[j] came from before_out[j-1], not below x
                } else if j == p {
                    lemma_keys_lt_asymmetric(before_out[i].sort_key(), x.sort_key());
                } else if i < p && j > p {
                    assert(out@[i] == before_out[i]);
                    assert(out@[j] == before_out[j - 1]);
                } else if i > p {
                    assert(out@[i] == before_out[i - 1]);
                    assert(out@[j] == before_out[j - 1]);
                } else {
                    assert(out@[i] == before_out[i]);
                    assert(out@[j] == before_out[j]);
                }
            }
            assert(rest@.to_multiset().add(out@.to_multiset()) =~= original.to_multiset());
            assert forall|k: Seq<Seq<char>>| #[trigger] key_filter(original, k) == key_filter(rest@, k) + key_filter(out@, k) by {
                lemma_key_filter_push(rest@, x, k);
                lemma_key_filter_insert(before_out, p as int, x, k);
                assert(key_filter(before_rest, k) + key_filter(before_out, k) == key_filter(original, k));
                if x.sort_key() == k {
                    assert(key_filter(rest@, k).push(x) + key_filter(before_out, k)
                        =~= key_filter(rest@, k) + (seq![x] + key_filter(before_out, k)));
                }
            }
        }
    }
    proof {
        assert(rest@.to_multiset() =~= Multiset::empty());
        assert(out@.to_multiset() =~= original.to_multiset());
        assert(rest@.len() == 0);
        assert forall|k: Seq<Seq<char>>| #[trigger] key_filter(out@, k) == key_filter(original, k) by {
            assert(rest@ =~= Seq::<T>::empty());
            assert(key_filter(rest@, k) =~= Seq::<T>::empty());
            assert(key_filter(rest@, k) + key_filter(out@, k) =~= key_filter(out@, k));
        }
    }
    out
}


/// The character sequences of a list of strings.
pub open spec fn strings_view(v: Seq<String>) -> Seq<Seq<char>> {
    Seq::new(v.len(), |i: int| v[i]@)
}

/// Tuple order of two string lists.
pub fn strings_lt(a: &Vec<String>, b: &Vec<String>) -> (r: bool)
    ensures
        r == keys_lt(strings_view(a@), strings_view(b@)),
{
    let mut i: usize = 0;
    assert(strings_view(a@).skip(0) =~= strings_view(a@));
    assert(strings_view(b@).skip(0) =~= strings_view(b@));
    while i < a.len() && i < b.len()
        invariant
            i <= a@.len(),
            i <= b@.len(),
            keys_lt(strings_view(a@), strings_view(b@))
                == keys_lt(strings_view(a@).skip(i as int), strings_view(b@).skip(i as int)),
        decreases a@.len() - i,
    {
        let ghost x = strings_view(a@).skip(i as int);
        let ghost y = strings_view(b@).skip(i as int);
        proof {
            assert(x =~= seq![x[0]] + x.drop_first());
            assert(y =~= seq![y[0]] + y.drop_first());
            lemma_keys_lt_cons(x[0], x.drop_first(), y[0], y.drop_first());
            assert(x.drop_first() =~= strings_view(a@).skip(i as int + 1));
            assert(y.drop_first() =~= strings_view(b@).skip(i as int + 1));
        }
        if !str_eq(a[i].as_str(), b[i].as_str()) {
            return str_lt(a[i].as_str(), b[i].as_str());
        }
        i += 1;
    }
    i < b.len()
}

/// A value paired with the string tuple it is ordered by.
pub struct Keyed<T> {
    pub key: Vec<String>,
    pub value: T,
}

impl<T> SortKey for Keyed<T> {
    open spec fn sort_key(&self) -> Seq<Seq<char>> {
        strings_view(self.key@)
    }

    fn key_lt(&self, other: &Self) -> (r: bool) {
        strings_lt(&self.key, &other.key)
    }
}

/// The values of keyed records, in order.
pub open spec fn keyed_values<T>(v: Seq<Keyed<T>>) -> Seq<T> {
    Seq::new(v.len(), |i: int| v[i].value)
}

/// Unwraps keyed records, keeping their order.
pub fn unkey<T>(v: Vec<Keyed<T>>) -> (out: Vec<T>)
    ensures
        out@ == keyed_values(v@),
{
    let ghost orig = v@;
    let mut rest = v;
    let mut rev: Vec<T> = Vec::new();
    while rest.len() > 0
        invariant
            rest@.len() + rev@.len() == orig.len(),
            rest@ == orig.take(rest@.len() as int),
            forall|k: int| 0 <= k < rev@.len() ==> rev@[k] == orig[orig.len() - 1 - k].value,
        decreases rest@.len(),
    {
        let x = rest.pop().unwrap();
        rev.push(x.value);
    }
    let mut out: Vec<T> = Vec::new();
    while rev.len() > 0
        invariant
            rev@.len() + out@.len() == orig.len(),
            forall|k: int| 0 <= k < rev@.len() ==> rev@[k] == orig[orig.len() - 1 - k].value,
            forall|k: int| 0 <= k < out@.len() ==> out@[k] == orig[k].value,
        decreases rev@.len(),
    {
        let x = rev.pop().unwrap();
        out.push(x);
    }
    assert(out@ =~= keyed_values(orig));
    out
}

/// Ascending sort of indices with duplicates removed.
#[verifier::spinoff_prover]
pub fn sort_dedup_indices(v: &Vec<usize>) -> (out: Vec<usize>)
    ensures
        forall|x: usize| out@.contains(x) <==> v@.contains(x),
        forall|i: int, j: int| 0 <= i < j < out@.len() ==> out@[i] < out@[j],
{
    let mut out: Vec<usize> = Vec::new();
    let mut i: usize = 0;
    while i < v.len()
        invariant
            i <= v@.len(),
            forall|x: usize| out@.contains(x) <==> v@.take(i as int).contains(x),
            forall|a: int, b: int| 0 <= a < b < out@.len() ==> out@[a] < out@[b],
        decreases v@.len() - i,
    {
        let x = v[i];
        let mut p: usize = 0;
        while p < out.len() && out[p] < x
            invariant
                p <= out@.len(),
                forall|k: int| 0 <= k < p ==> out@[k] < x,
            decreases out@.len() - p,
        {
            p += 1;
        }
        let ghost before = out@;
        assert(forall|y: usize| before.contains(y) <==> v@.take(i as int).contains(y));
        if p < out.len() && out[p] == x {
        } else {
            out.insert(p, x);
            assert forall|a: int, b: int| 0 <= a < b < out@.len() implies out@[a] < out@[b] by {
                if a < p && b == p {
                } else if a == p {
                    assert(before[b - 1] >= x) by {
                        if before[b - 1] < x {
                            assert(before[p as int] < before[b - 1]);
                        }
                    }
                    if b - 1 > p as int {
                        assert(before[p as int] < before[b - 1]);
                    }
                    assert(before[p as int] != x);
                    assert(before[p as int] >= x);
                } else if a < p && b > p {
                    assert(out@[b] == before[b - 1]);
                } else if a > p {
                    assert(out@[a] == before[a - 1]);
                    assert(out@[b] == before[b - 1]);
                }
            }
        }
        proof {
            let t = v@.take(i as int);
            let t1 = v@.take(i as int + 1);
            assert(t1 =~= t.push(x));
            assert forall|y: usize| #![trigger t1.contains(y)] #![trigger t.contains(y)]
                t1.contains(y) <==> (t.contains(y) || y == x) by {
                if t1.contains(y) {
                    let k = choose|k: int| 0 <= k < t1.len() && t1[k] == y;
                    if k < t.len() {
                        assert(t[k] == y);
                    }
                }
                if t.contains(y) {
                    let k = choose|k: int| 0 <= k < t.len() && t[k] == y;
                    assert(t1[k] == y);
                }
                if y == x {
                    assert(t1[t.len() as int] == x);
                }
            }
            assert forall|y: usize| #![trigger out@.contains(y)] #![trigger before.contains(y)]
                out@.contains(y) <==> (before.contains(y) || y == x) by {
                if p < before.len() && before[p as int] == x {
                    assert(out@ == before);
                } else {
                    if out@.contains(y) {
                        let k = choose|k: int| 0 <= k < out@.len() && out@[k] == y;
                        if k < p {
                            assert(before[k] == y);
                        } else if k > p {
                            assert(before[k - 1] == y);
                        }
                    }
                    if before.contains(y) {
                        let k = choose|k: int| 0 <= k < before.len() && before[k] == y;
                        if k < p {
                            assert(out@[k] == y);
                        } else {
                            assert(out@[k + 1] == y);
                        }
                    }
                    if y == x {
                        assert(out@[p as int] == x);
                    }
                }
            }
            assert forall|y: usize| out@.contains(y) <==> t1.contains(y) by {
                assert(out@.contains(y) == (before.contains(y) || y == x));
                assert(t1.contains(y) == (t.contains(y) || y == x));
                assert(before.contains(y) == t.contains(y));
            }
        }
        i += 1;
    }
    assert(v@.take(v@.len() as int) =~= v@);
    out
}


/// `ord` lists every position below `n` exactly once.
pub open spec fn is_permutation_of_range(ord: Seq<usize>, n: nat) -> bool {
    &&& ord.len() == n
    &&& forall|i: int| 0 <= i < ord.len() ==> ord[i] < n
    &&& forall|x: usize| x < n ==> ord.contains(x)
}

/// `ord` visits the keyed positions in non-decreasing key order.
pub open spec fn orders_keys(keys: Seq<Seq<Seq<char>>>, ord: Seq<usize>) -> bool {
    &&& is_permutation_of_range(ord, keys.len())
    &&& forall|i: int, j: int| 0 <= i < j < ord.len() ==> !keys_lt(keys[ord[j] as int], keys[ord[i] as int])
}

pub open spec fn keys_views(keys: Seq<Vec<String>>) -> Seq<Seq<Seq<char>>> {
    Seq::new(keys.len(), |i: int| strings_view(keys[i]@))
}

/// The positions of `keys` in stable non-decreasing key order.
pub fn sort_indices(keys: Vec<Vec<String>>) -> (ord: Vec<usize>)
    ensures
        orders_keys(keys_views(keys@), ord@),
{
    let ghost kv = keys_views(keys@);
    let n = keys.len();
    let mut keyed: Vec<Keyed<usize>> = Vec::new();
    let mut rest = keys;
    while rest.len() > 0
        invariant
            rest@.len() + keyed@.len() == n,
            n == kv.len(),
            forall|i: int| 0 <= i < rest@.len() ==> strings_view(rest@[i]@) == kv[i],
            forall|k: int| 0 <= k < keyed@.len() ==> keyed@[k].value == n - 1 - k
                && strings_view(keyed@[k].key@) == kv[n - 1 - k],
        decreases rest@.len(),
    {
        let ghost before = rest@;
        let key = rest.pop().unwrap();
        assert(before[rest@.len() as int] == key);
        let v = rest.len();
        keyed.push(Keyed { key, value: v });
    }
    let ghost pre = keyed@;
    let sorted = sort_by_key(keyed);
    let ghost post = sorted@;
    let ord = unkey(sorted);
    proof {
        assert forall|i: int| 0 <= i < post.len() implies pre.contains(#[trigger] post[i]) by {
            assert(post.contains(post[i]));
            vstd::seq_lib::to_multiset_contains(post, post[i]);
            vstd::seq_lib::to_multiset_contains(pre, post[i]);
        }
        assert forall|i: int| 0 <= i < ord@.len() implies ord@[i] < n && strings_view(post[i].key@) == kv[ord@[i] as int] by {
            assert(pre.contains(post[i]));
            let k = choose|k: int| 0 <= k < pre.len() && pre[k] == post[i];
        }
        assert forall|x: usize| x < n implies ord@.contains(x) by {
            let k = (n - 1 - x) as int;
            assert(pre[k].value == x);
            assert(pre.contains(pre[k]));
            vstd::seq_lib::to_multiset_contains(pre, pre[k]);
            vstd::seq_lib::to_multiset_contains(post, pre[k]);
            let m = choose|m: int| 0 <= m < post.len() && post[m] == pre[k];
            assert(ord@[m] == x);
        }
        assert forall|i: int, j: int| 0 <= i < j < ord@.len() implies !keys_lt(kv[ord@[j] as int], kv[ord@[i] as int]) by {
            assert(!keys_lt(post[j].sort_key(), post[i].sort_key()));
        }
    }
    ord
}

/// Values ordered by their keys, where each key is `f` of its value.
pub fn sort_keyed<T>(v: Vec<Keyed<T>>, Ghost(f): Ghost<spec_fn(T) -> Seq<Seq<char>>>) -> (r: Vec<T>)
    requires
        forall|i: int| 0 <= i < v@.len() ==> (#[trigger] v@[i]).sort_key() == f(v@[i].value),
    ensures
        r@.len() == v@.len(),
        forall|x: T| r@.contains(x) <==> keyed_values(v@).contains(x),
        forall|a: int, b: int| 0 <= a < b < r@.len() ==> !keys_lt(f(r@[b]), f(r@[a])),
{
    let ghost pre = v@;
    let sorted = sort_by_key(v);
    let r = unkey(sorted);
    proof {
        assert forall|k: int| 0 <= k < sorted@.len() implies (#[trigger] sorted@[k]).sort_key() == f(sorted@[k].value) by {
            vstd::seq_lib::to_multiset_contains(sorted@, sorted@[k]);
            assert(sorted@.to_multiset().count(sorted@[k]) > 0);
            assert(pre.to_multiset().count(sorted@[k]) > 0);
            assert(pre.contains(sorted@[k]));
        }
        assert forall|x: T| r@.contains(x) <==> keyed_values(pre).contains(x) by {
            if r@.contains(x) {
                let k = choose|k: int| 0 <= k < r@.len() && r@[k] == x;
                vstd::seq_lib::to_multiset_contains(sorted@, sorted@[k]);
                assert(sorted@.to_multiset().count(sorted@[k]) > 0);
                assert(pre.to_multiset().count(sorted@[k]) > 0);
                assert(pre.contains(sorted@[k]));
                let m = choose|m: int| 0 <= m < pre.len() && pre[m] == sorted@[k];
                assert(keyed_values(pre)[m] == x);
            }
            if keyed_values(pre).contains(x) {
                let m = choose|m: int| 0 <= m < pre.len() && keyed_values(pre)[m] == x;
                assert(pre.contains(pre[m]));
                vstd::seq_lib::to_multiset_contains(pre, pre[m]);
                assert(sorted@.to_multiset().count(pre[m]) > 0);
                assert(sorted@.contains(pre[m]));
                let s = choose|s: int| 0 <= s < sorted@.len() && sorted@[s] == pre[m];
                assert(r@[s] == x);
            }
        }
        assert forall|a: int, b: int| 0 <= a < b < r@.len() implies !keys_lt(f(r@[b]), f(r@[a])) by {
            assert(sorted@[a].sort_key() == f(sorted@[a].value));
            assert(sorted@[b].sort_key() == f(sorted@[b].value));
        }
    }
    r
}


/// One-field keys order as their field.
pub proof fn lemma_keys_lt_one(a: Seq<char>, b: Seq<char>)
    ensures
        keys_lt(seq![a], seq![b]) == (a != b && seq_lt(a, b)),
{
    let e = Seq::<Seq<char>>::empty();
    lemma_keys_lt_cons(a, e, b, e);
    assert(seq![a] =~= seq![a] + e);
    assert(seq![b] =~= seq![b] + e);
}

/// Strictly ascending strings.
pub open spec fn strictly_ascending(s: Seq<Seq<char>>) -> bool {
    forall|i: int, j: int| 0 <= i < j < s.len() ==> seq_lt(#[trigger] s[i], #[trigger] s[j])
}

/// The distinct strings of `v` in ascending order.
pub fn sorted_unique(v: &Vec<String>) -> (r: Vec<String>)
    ensures
        strictly_ascending(views(r@)),
        forall|x: Seq<char>| views(r@).contains(x) <==> views(v@).contains(x),
{
    let mut keys: Vec<Vec<String>> = Vec::new();
    let mut i: usize = 0;
    while i < v.len()
        invariant
            i <= v@.len(),
            keys@.len() == i,
            forall|k: int| 0 <= k < i ==> strings_view(#[trigger] keys@[k]@) == seq![v@[k]@],
        decreases v@.len() - i,
    {
        let key = vec![v[i].clone()];
        assert(strings_view(key@) =~= seq![v@[i as int]@]);
        keys.push(key);
        i += 1;
    }
    let ghost kv = keys_views(keys@);
    assert forall|k: int| 0 <= k < kv.len() implies #[trigger] kv[k] == seq![v@[k]@] by {
        assert(kv[k] == strings_view(keys@[k]@));
    }
    let ord = sort_indices(keys);
    let mut r: Vec<String> = Vec::new();
    let mut t: usize = 0;
    while t < ord.len()
        invariant
            t <= ord@.len(),
            kv.len() == v@.len(),
            orders_keys(kv, ord@),
            forall|k: int| 0 <= k < kv.len() ==> #[trigger] kv[k] == seq![v@[k]@],
            strictly_ascending(views(r@)),
            t == 0 <==> r@.len() == 0,
            t > 0 ==> views(r@).last() == v@[ord@[t - 1] as int]@,
            forall|x: Seq<char>| views(r@).contains(x) ==> exists|k: int| 0 <= k < t && x == v@[#[trigger] ord@[k] as int]@,
            forall|k: int| 0 <= k < t ==> views(r@).contains(v@[#[trigger] ord@[k] as int]@),
        decreases ord@.len() - t,
    {
        let m = ord[t];
        let ghost before = views(r@);
        if r.len() == 0 || !str_eq(r[r.len() - 1].as_str(), v[m].as_str()) {
            proof {
                if t > 0 {
                    let p = ord@[t - 1] as int;
                    assert(!keys_lt(kv[m as int], kv[p]));
                    lemma_keys_lt_one(v@[m as int]@, v@[p]@);
                    lemma_seq_lt_total(v@[m as int]@, v@[p]@);
                    assert(seq_lt(before.last(), v@[m as int]@));
                    assert forall|a: int| 0 <= a < before.len() implies seq_lt(#[trigger] before[a], v@[m as int]@) by {
                        if a < before.len() - 1 {
                            assert(seq_lt(before[a], before[before.len() - 1]));
                            lemma_seq_lt_transitive(before[a], before.last(), v@[m as int]@);
                        }
                    }
                }
            }
            r.push(v[m].clone());
            proof {
                assert(views(r@) =~= before.push(v@[m as int]@));
                assert forall|x: Seq<char>| views(r@).contains(x) implies exists|k: int| 0 <= k < t + 1 && x == v@[#[trigger] ord@[k] as int]@ by {
                    if before.contains(x) {
                        let k = choose|k: int| 0 <= k < t && x == v@[#[trigger] ord@[k] as int]@;
                        assert(0 <= k < t + 1 && x == v@[ord@[k] as int]@);
                    } else {
                        assert(x == v@[ord@[t as int] as int]@);
                    }
                }
                assert forall|k: int| 0 <= k < t + 1 implies views(r@).contains(v@[#[trigger] ord@[k] as int]@) by {
                    if k < t {
                        assert(before.contains(v@[ord@[k] as int]@));
                        let q = choose|q: int| 0 <= q < before.len() && before[q] == v@[ord@[k] as int]@;
                        assert(views(r@)[q] == before[q]);
                    } else {
                        assert(views(r@)[before.len() as int] == v@[m as int]@);
                    }
                }
            }
        } else {
            proof {
                assert(views(r@).last() == v@[m as int]@);
                assert forall|k: int| 0 <= k < t + 1 implies views(r@).contains(v@[#[trigger] ord@[k] as int]@) by {
                    if k == t {
                        assert(views(r@)[views(r@).len() - 1] == v@[m as int]@);
                    }
                }
                assert forall|x: Seq<char>| views(r@).contains(x) implies exists|k: int| 0 <= k < t + 1 && x == v@[#[trigger] ord@[k] as int]@ by {
                    let k = choose|k: int| 0 <= k < t && x == v@[#[trigger] ord@[k] as int]@;
                    assert(0 <= k < t + 1 && x == v@[ord@[k] as int]@);
                }
            }
        }
        t += 1;
    }
    proof {
        assert forall|x: Seq<char>| views(r@).contains(x) <==> views(v@).contains(x) by {
            if views(r@).contains(x) {
                let k = choose|k: int| 0 <= k < ord@.len() && x == v@[#[trigger] ord@[k] as int]@;
                assert(views(v@)[ord@[k] as int] == x);
            }
            if views(v@).contains(x) {
                let q = choose|q: int| 0 <= q < views(v@).len() && views(v@)[q] == x;
                assert(ord@.contains(q as usize));
                let k = choose|k: int| 0 <= k < ord@.len() && ord@[k] == q as usize;
                assert(views(r@).contains(v@[ord@[k] as int]@));
            }
        }
    }
    r
}


/// A permutation of `0..n` visits no position twice.
pub proof fn lemma_permutation_injective(ord: Seq<usize>, n: nat)
    requires
        is_permutation_of_range(ord, n),
        n <= usize::MAX,
    ensures
        forall|i: int, j: int| 0 <= i < j < ord.len() ==> ord[i] != ord[j],
{
    assert forall|i: int, j: int| 0 <= i < j < ord.len() implies ord[i] != ord[j] by {
        if ord[i] == ord[j] {
            let w = ord.remove(j);
            let wi = w.map_values(|x: usize| x as int);
            let range = vstd::set_lib::set_int_range(0, n as int);
            assert forall|x: int| range.contains(x) implies wi.to_set().contains(x) by {
                assert(ord.contains(x as usize));
                let k = choose|k: int| 0 <= k < ord.len() && ord[k] == x as usize;
                if k == j {
                    assert(wi[i] == x);
                } else if k < j {
                    assert(wi[k] == x);
                } else {
                    assert(wi[k - 1] == x);
                }
            }
            vstd::set_lib::lemma_int_range(0, n as int);
            vstd::seq_lib::seq_to_set_is_finite(wi);
            vstd::set_lib::lemma_len_subset(range, wi.to_set());
            wi.lemma_cardinality_of_set();
        }
    }
}

/// Strictly ascending by key.
pub open spec fn ascending_by<T>(u: Seq<T>, f: spec_fn(T) -> Seq<Seq<char>>) -> bool {
    forall|i: int, j: int| 0 <= i < j < u.len() ==> keys_lt(f(#[trigger] u[i]), f(#[trigger] u[j]))
}

/// Two sequences strictly ascending by key that hold the same elements are
/// equal.
pub proof fn lemma_ascending_unique<T>(u: Seq<T>, v: Seq<T>, f: spec_fn(T) -> Seq<Seq<char>>)
    requires
        ascending_by(u, f),
        ascending_by(v, f),
        forall|x: T| u.contains(x) <==> v.contains(x),
    ensures
        u == v,
    decreases u.len(),
{
    if u.len() == 0 {
        if v.len() > 0 {
            assert(v.contains(v[0]));
        }
        assert(u =~= v);
    } else {
        assert(u.contains(u[0]));
        let j = choose|j: int| 0 <= j < v.len() && v[j] == u[0];
        assert(v.contains(v[0]));
        let i = choose|i: int| 0 <= i < u.len() && u[i] == v[0];
        if j > 0 {
            assert(keys_lt(f(v[0]), f(v[j])));
            if i > 0 {
                assert(keys_lt(f(u[0]), f(u[i])));
                lemma_keys_lt_asymmetric(f(u[0]), f(u[i]));
            } else {
                lemma_keys_lt_irreflexive(f(u[0]));
            }
        }
        assert(v[0] == u[0]);
        let u1 = u.drop_first();
        let v1 = v.drop_first();
        assert forall|x: T| u1.contains(x) <==> v1.contains(x) by {
            if u1.contains(x) {
                let k = choose|k: int| 0 <= k < u1.len() && u1[k] == x;
                assert(u[k + 1] == x);
                assert(v.contains(x));
                let m = choose|m: int| 0 <= m < v.len() && v[m] == x;
                if m == 0 {
                    assert(keys_lt(f(u[0]), f(u[k + 1])));
                    lemma_keys_lt_irreflexive(f(u[0]));
                }
                assert(v1[m - 1] == x);
            }
            if v1.contains(x) {
                let k = choose|k: int| 0 <= k < v1.len() && v1[k] == x;
                assert(v[k + 1] == x);
                assert(u.contains(x));
                let m = choose|m: int| 0 <= m < u.len() && u[m] == x;
                if m == 0 {
                    assert(keys_lt(f(v[0]), f(v[k + 1])));
                    lemma_keys_lt_irreflexive(f(v[0]));
                }
                assert(u1[m - 1] == x);
            }
        }
        assert forall|a: int, b: int| 0 <= a < b < u1.len() implies keys_lt(f(#[trigger] u1[a]), f(#[trigger] u1[b])) by {
            assert(u1[a] == u[a + 1] && u1[b] == u[b + 1]);
        }
        assert forall|a: int, b: int| 0 <= a < b < v1.len() implies keys_lt(f(#[trigger] v1[a]), f(#[trigger] v1[b])) by {
            assert(v1[a] == v[a + 1] && v1[b] == v[b + 1]);
        }
        lemma_ascending_unique(u1, v1, f);
        assert(u =~= seq![u[0]] + u1);
        assert(v =~= seq![v[0]] + v1);
    }
}

/// The keys of a sequence under `f`.
pub open spec fn keys_by<T>(s: Seq<T>, f: spec_fn(T) -> Seq<Seq<char>>) -> Seq<Seq<Seq<char>>> {
    Seq::new(s.len(), |i: int| f(s[i]))
}

/// No two positions share a key.
pub open spec fn distinct_keys<T>(s: Seq<T>, f: spec_fn(T) -> Seq<Seq<char>>) -> bool {
    forall|i: int, j: int| 0 <= i < j < s.len() ==> f(#[trigger] s[i]) != f(#[trigger] s[j])
}

/// The elements of `s` in the order `ord` visits them.
pub open spec fn visit<T>(s: Seq<T>, ord: Seq<usize>) -> Seq<T> {
    Seq::new(ord.len(), |k: int| s[ord[k] as int])
}

pub proof fn lemma_visit_ascending<T>(s: Seq<T>, ord: Seq<usize>, f: spec_fn(T) -> Seq<Seq<char>>)
    requires
        s.len() <= usize::MAX,
        orders_keys(keys_by(s, f), ord),
        distinct_keys(s, f),
    ensures
        ascending_by(visit(s, ord), f),
        forall|x: T| visit(s, ord).contains(x) <==> s.contains(x),
{
    let u = visit(s, ord);
    let ks = keys_by(s, f);
    lemma_permutation_injective(ord, s.len());
    assert forall|i: int, j: int| 0 <= i < j < u.len() implies keys_lt(f(#[trigger] u[i]), f(#[trigger] u[j])) by {
        assert(!keys_lt(ks[ord[j] as int], ks[ord[i] as int]));
        assert(ks[ord[j] as int] == f(u[j]) && ks[ord[i] as int] == f(u[i]));
        assert(ord[i] != ord[j]);
        if ord[i] < ord[j] {
            assert(f(s[ord[i] as int]) != f(s[ord[j] as int]));
        } else {
            assert(f(s[ord[j] as int]) != f(s[ord[i] as int]));
        }
        lemma_keys_lt_total(f(u[i]), f(u[j]));
    }
    assert forall|x: T| u.contains(x) <==> s.contains(x) by {
        if u.contains(x) {
            let k = choose|k: int| 0 <= k < u.len() && u[k] == x;
            assert(s[ord[k] as int] == x);
        }
        if s.contains(x) {
            let p = choose|p: int| 0 <= p < s.len() && s[p] == x;
            assert(ord.contains(p as usize));
            let k = choose|k: int| 0 <= k < ord.len() && ord[k] == p as usize;
            assert(u[k] == x);
        }
    }
}

proof fn lemma_distinct_keys_no_duplicates<T>(s: Seq<T>, f: spec_fn(T) -> Seq<Seq<char>>)
    requires
        distinct_keys(s, f),
    ensures
        s.no_duplicates(),
{
    assert forall|i: int, j: int| 0 <= i < s.len() && 0 <= j < s.len() && i != j implies s[i] != s[j] by {
        if i < j {
            assert(f(s[i]) != f(s[j]));
        } else {
            assert(f(s[j]) != f(s[i]));
        }
    }
}

/// Two key orders of permutations of one sequence with distinct keys visit
/// the same elements in the same order.
pub proof fn lemma_sorted_permutations_agree<T>(s: Seq<T>, t: Seq<T>, os: Seq<usize>, ot: Seq<usize>, f: spec_fn(T) -> Seq<Seq<char>>)
    requires
        s.len() <= usize::MAX,
        s.to_multiset() == t.to_multiset(),
        distinct_keys(s, f),
        orders_keys(keys_by(s, f), os),
        orders_keys(keys_by(t, f), ot),
    ensures
        visit(s, os) == visit(t, ot),
{
    lemma_distinct_keys_no_duplicates(s, f);
    s.lemma_multiset_has_no_duplicates();
    assert forall|x: T| t.to_multiset().contains(x) implies t.to_multiset().count(x) == 1 by {
        assert(s.to_multiset().contains(x));
    }
    t.lemma_multiset_has_no_duplicates_conv();
    assert forall|x: T| s.contains(x) <==> t.contains(x) by {
        vstd::seq_lib::to_multiset_contains(s, x);
        vstd::seq_lib::to_multiset_contains(t, x);
    }
    assert forall|i: int, j: int| 0 <= i < j < t.len() implies f(#[trigger] t[i]) != f(#[trigger] t[j]) by {
        assert(s.contains(t[i]));
        assert(s.contains(t[j]));
        let p = choose|p: int| 0 <= p < s.len() && s[p] == t[i];
        let q = choose|q: int| 0 <= q < s.len() && s[q] == t[j];
        assert(t[i] != t[j]);
        if p < q {
            assert(f(s[p]) != f(s[q]));
        } else if q < p {
            assert(f(s[q]) != f(s[p]));
        }
    }
    assert(t.len() == t.to_multiset().len());
    assert(s.len() == s.to_multiset().len());
    lemma_visit_ascending(s, os, f);
    lemma_visit_ascending(t, ot, f);
    assert forall|x: T| visit(s, os).contains(x) <==> visit(t, ot).contains(x) by {
        assert(visit(s, os).contains(x) <==> s.contains(x));
        assert(visit(t, ot).contains(x) <==> t.contains(x));
    }
    lemma_ascending_unique(visit(s, os), visit(t, ot), f);
}

/// Non-decreasing key order.
pub open spec fn keys_le(a: Seq<Seq<char>>, b: Seq<Seq<char>>) -> bool {
    !keys_lt(b, a)
}

proof fn lemma_keys_le_total_ordering()
    ensures
        vstd::relations::total_ordering(|a: Seq<Seq<char>>, b: Seq<Seq<char>>| keys_le(a, b)),
{
    let leq = |a: Seq<Seq<char>>, b: Seq<Seq<char>>| keys_le(a, b);
    assert forall|a: Seq<Seq<char>>| #[trigger] leq(a, a) by {
        lemma_keys_lt_irreflexive(a);
    }
    assert forall|a: Seq<Seq<char>>, b: Seq<Seq<char>>| #[trigger] leq(a, b) && #[trigger] leq(b, a) implies a == b by {
        lemma_keys_lt_total(a, b);
    }
    assert forall|a: Seq<Seq<char>>, b: Seq<Seq<char>>, c: Seq<Seq<char>>| #[trigger] leq(a, b) && #[trigger] leq(b, c) implies #[trigger] leq(a, c) by {
        lemma_keys_lt_total(a, b);
        if keys_lt(c, a) {
            if a == b {
            } else {
                lemma_keys_lt_transitive(c, a, b);
            }
        }
    }
    assert forall|a: Seq<Seq<char>>, b: Seq<Seq<char>>| #[trigger] leq(a, b) || #[trigger] leq(b, a) by {
        if keys_lt(b, a) {
            lemma_keys_lt_asymmetric(b, a);
        }
    }
}

/// Visiting every position once, in any order, keeps the multiset.
pub proof fn lemma_visit_multiset<T>(s: Seq<T>, ord: Seq<usize>)
    requires
        is_permutation_of_range(ord, s.len()),
        s.len() <= usize::MAX,
    ensures
        visit(s, ord).to_multiset() == s.to_multiset(),
    decreases s.len(),
{
    broadcast use vstd::seq_lib::group_to_multiset_ensures;
    if s.len() == 0 {
        assert(visit(s, ord) =~= s);
    } else {
        let n = s.len();
        lemma_permutation_injective(ord, n);
        let p = ord[n - 1] as int;
        let s1 = s.remove(p);
        let o1 = Seq::new((n - 1) as nat, |k: int| if ord[k] as int > p { (ord[k] - 1) as usize } else { ord[k] });
        assert forall|k: int| 0 <= k < o1.len() implies o1[k] < n - 1 by {
            assert(ord[k] != ord[n - 1]);
        }
        assert forall|x: usize| x < n - 1 implies o1.contains(x) by {
            let y: usize = if (x as int) < p { x } else { (x + 1) as usize };
            assert(ord.contains(y));
            let k = choose|k: int| 0 <= k < ord.len() && ord[k] == y;
            assert(k != n - 1);
            assert(o1[k] == x);
        }
        lemma_visit_multiset(s1, o1);
        let u = visit(s, ord);
        assert(visit(s1, o1) =~= u.drop_last());
        assert(u =~= u.drop_last().push(s[p]));
        vstd::seq_lib::to_multiset_remove(s, p);
    }
}

/// Equal multisets have equal multisets of keys.
pub proof fn lemma_keys_multiset<T>(u: Seq<T>, v: Seq<T>, f: spec_fn(T) -> Seq<Seq<char>>)
    requires
        u.to_multiset() == v.to_multiset(),
    ensures
        keys_by(u, f).to_multiset() == keys_by(v, f).to_multiset(),
    decreases u.len(),
{
    broadcast use vstd::seq_lib::group_to_multiset_ensures;
    vstd::seq_lib::to_multiset_len(u);
    vstd::seq_lib::to_multiset_len(v);
    if u.len() == 0 {
        assert(keys_by(u, f) =~= keys_by(v, f));
    } else {
        let x = u.last();
        assert(u.to_multiset().count(x) > 0);
        assert(v.contains(x)) by {
            vstd::seq_lib::to_multiset_contains(v, x);
        }
        let j = choose|j: int| 0 <= j < v.len() && v[j] == x;
        let u1 = u.drop_last();
        let v1 = v.remove(j);
        vstd::seq_lib::to_multiset_remove(v, j);
        assert(u =~= u1.push(x));
        assert(u1.to_multiset() =~= v1.to_multiset());
        lemma_keys_multiset(u1, v1, f);
        assert(keys_by(u, f) =~= keys_by(u1, f).push(f(x)));
        assert(keys_by(v1, f) =~= keys_by(v, f).remove(j));
        vstd::seq_lib::to_multiset_remove(keys_by(v, f), j);
    }
}

/// Equal multisets of keyed records have equal multisets of values.
pub proof fn lemma_values_multiset<T>(u: Seq<Keyed<T>>, v: Seq<Keyed<T>>)
    requires
        u.to_multiset() == v.to_multiset(),
    ensures
        keyed_values(u).to_multiset() == keyed_values(v).to_multiset(),
    decreases u.len(),
{
    broadcast use vstd::seq_lib::group_to_multiset_ensures;
    vstd::seq_lib::to_multiset_len(u);
    vstd::seq_lib::to_multiset_len(v);
    if u.len() == 0 {
        assert(keyed_values(u) =~= keyed_values(v));
    } else {
        let x = u.last();
        assert(u.to_multiset().count(x) > 0);
        assert(v.contains(x)) by {
            vstd::seq_lib::to_multiset_contains(v, x);
        }
        let j = choose|j: int| 0 <= j < v.len() && v[j] == x;
        let u1 = u.drop_last();
        let v1 = v.remove(j);
        vstd::seq_lib::to_multiset_remove(v, j);
        assert(u =~= u1.push(x));
        assert(u1.to_multiset() =~= v1.to_multiset());
        lemma_values_multiset(u1, v1);
        assert(keyed_values(u) =~= keyed_values(u1).push(x.value));
        assert(keyed_values(v1) =~= keyed_values(v).remove(j));
        vstd::seq_lib::to_multiset_remove(keyed_values(v), j);
    }
}

/// Two key orders of permutations of one sequence visit equal keys, position
/// by position, whether keys repeat or not.
pub proof fn lemma_sorted_keys_agree<T>(s: Seq<T>, t: Seq<T>, os: Seq<usize>, ot: Seq<usize>, f: spec_fn(T) -> Seq<Seq<char>>)
    requires
        s.len() <= usize::MAX,
        s.to_multiset() == t.to_multiset(),
        orders_keys(keys_by(s, f), os),
        orders_keys(keys_by(t, f), ot),
    ensures
        os.len() == ot.len(),
        forall|k: int| 0 <= k < os.len() ==> f(#[trigger] s[os[k] as int]) == f(t[ot[k] as int]),
{
    broadcast use vstd::seq_lib::group_to_multiset_ensures;
    vstd::seq_lib::to_multiset_len(s);
    vstd::seq_lib::to_multiset_len(t);
    lemma_visit_multiset(s, os);
    lemma_visit_multiset(t, ot);
    let u = visit(s, os);
    let v = visit(t, ot);
    lemma_keys_multiset(u, v, f);
    let ku = keys_by(u, f);
    let kv = keys_by(v, f);
    let leq = |a: Seq<Seq<char>>, b: Seq<Seq<char>>| keys_le(a, b);
    assert forall|i: int, j: int| 0 <= i < j < ku.len() implies #[trigger] leq(ku[i], ku[j]) by {
        assert(ku[i] == keys_by(s, f)[os[i] as int]);
        assert(ku[j] == keys_by(s, f)[os[j] as int]);
    }
    assert forall|i: int, j: int| 0 <= i < j < kv.len() implies #[trigger] leq(kv[i], kv[j]) by {
        assert(kv[i] == keys_by(t, f)[ot[i] as int]);
        assert(kv[j] == keys_by(t, f)[ot[j] as int]);
    }
    lemma_keys_le_total_ordering();
    vstd::seq_lib::lemma_sorted_unique(ku, kv, leq);
    assert forall|k: int| 0 <= k < os.len() implies f(#[trigger] s[os[k] as int]) == f(t[ot[k] as int]) by {
        assert(ku[k] == kv[k]);
    }
}

} // verus!
