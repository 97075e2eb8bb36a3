//! A stable ordering of keyed items by descending key, shared by the move
//! orderings of the engines.

use vstd::prelude::*;

verus! {

broadcast use vstd::seq_lib::to_multiset_insert, vstd::seq_lib::to_multiset_build, vstd::seq_lib::to_multiset_contains;

/// Keys never increase along `s`.
pub open spec fn sorted_desc<T>(s: Seq<(T, i64)>) -> bool {
    forall|a: int, b: int| 0 <= a < b < s.len() ==> s[a].1 >= s[b].1
}

/// Whether an item has key `k`.
pub open spec fn has_key<T>(k: i64) -> spec_fn((T, i64)) -> bool {
    |x: (T, i64)| x.1 == k
}

/// The items of `s` with key `k`, in order.
pub open spec fn keyed<T>(s: Seq<(T, i64)>, k: i64) -> Seq<(T, i64)> {
    s.filter(has_key(k))
}

/// No item of `s` has key `k`: none is kept.
proof fn lemma_keyed_none<T>(s: Seq<(T, i64)>, k: i64)
    requires
        forall|i: int| 0 <= i < s.len() ==> s[i].1 != k,
    ensures
        keyed(s, k) == Seq::<(T, i64)>::empty(),
    decreases s.len(),
{
    reveal(Seq::filter);
    if s.len() > 0 {
        lemma_keyed_none(s.drop_last(), k);
        assert(s.last() == s[s.len() - 1]);
    } else {
        assert(s =~= Seq::<(T, i64)>::empty());
    }
}

/// A single item is kept alone or not at all.
proof fn lemma_keyed_one<T>(x: (T, i64), k: i64)
    ensures
        keyed(seq![x], k) == (if x.1 == k {
            seq![x]
        } else {
            Seq::<(T, i64)>::empty()
        }),
{
    reveal(Seq::filter);
    let s = seq![x];
    assert(s.drop_last() =~= Seq::<(T, i64)>::empty());
    lemma_keyed_none(s.drop_last(), k);
    assert(s.last() == x);
    if x.1 == k {
        assert(Seq::<(T, i64)>::empty().push(x) =~= seq![x]);
    }
}

/// Appending an item appends it to the items with its key.
proof fn lemma_keyed_push<T>(s: Seq<(T, i64)>, x: (T, i64), k: i64)
    ensures
        keyed(s.push(x), k) == (if x.1 == k {
            keyed(s, k).push(x)
        } else {
            keyed(s, k)
        }),
{
    reveal(Seq::filter);
    assert(s.push(x).drop_last() =~= s);
    assert(s.push(x).last() == x);
}

/// Inserting `x` at `j` into a list sorted by descending key, after every
/// item with a key of at least `x`'s, appends `x` to the items with its key
/// and leaves the others.
proof fn lemma_keyed_insert<T>(o: Seq<(T, i64)>, j: int, x: (T, i64), k: i64)
    requires
        0 <= j <= o.len(),
        sorted_desc(o),
        forall|a: int| 0 <= a < j ==> o[a].1 >= x.1,
        j < o.len() ==> o[j].1 < x.1,
    ensures
        keyed(o.insert(j, x), k) == (if x.1 == k {
            keyed(o, k).push(x)
        } else {
            keyed(o, k)
        }),
{
    let f = has_key::<T>(k);
    let a = o.take(j);
    let b = o.skip(j);
    assert(o =~= a + b);
    assert(o.insert(j, x) =~= a + seq![x] + b);
    Seq::filter_distributes_over_add(a, b, f);
    Seq::filter_distributes_over_add(a + seq![x], b, f);
    Seq::filter_distributes_over_add(a, seq![x], f);
    lemma_keyed_one(x, k);
    if x.1 == k {
        assert forall|i: int| 0 <= i < b.len() implies b[i].1 != k by {
            assert(b[i] == o[j + i]);
            if i > 0 {
                assert(o[j].1 >= o[j + i].1);
            }
        }
        lemma_keyed_none(b, k);
        assert(a.filter(f) + seq![x].filter(f) + b.filter(f) =~= a.filter(f).push(x));
        assert(a.filter(f) + b.filter(f) =~= a.filter(f));
    } else {
        assert(a.filter(f) + seq![x].filter(f) + b.filter(f) =~= a.filter(f) + b.filter(f));
    }
}

/// Orders `v` by descending key; items with equal keys keep their order.
pub fn sort_desc<T: Copy>(v: Vec<(T, i64)>) -> (out: Vec<(T, i64)>)
    ensures
        out@.to_multiset() == v@.to_multiset(),
        out@.len() == v@.len(),
        sorted_desc(out@),
        forall|x: (T, i64)| #[trigger] out@.contains(x) <==> v@.contains(x),
        v@.no_duplicates() ==> out@.no_duplicates(),
        forall|k: i64| #[trigger] keyed(out@, k) == keyed(v@, k),
{
    let mut out: Vec<(T, i64)> = Vec::new();
    let n = v.len();
    let mut i: usize = 0;
    while i < n
        invariant
            n == v@.len(),
            i <= n,
            out@.to_multiset() == v@.take(i as int).to_multiset(),
            out@.len() == i,
            sorted_desc(out@),
            v@.no_duplicates() ==> out@.no_duplicates(),
            forall|k: i64| #[trigger] keyed(out@, k) == keyed(v@.take(i as int), k),
        decreases n - i,
    {
        let x = v[i];
        proof {
            if v@.no_duplicates() && out@.contains(x) {
                assert(out@.to_multiset().count(x) > 0);
                assert(v@.take(i as int).to_multiset().count(x) > 0);
                assert(v@.take(i as int).contains(x));
                let k = choose|k: int| 0 <= k < i && v@.take(i as int)[k] == x;
                assert(v@[k] == v@[i as int]);
            }
        }
        let mut j: usize = 0;
        while j < out.len() && out[j].1 >= x.1
            invariant
                j <= out@.len(),
                forall|a: int| 0 <= a < j ==> out@[a].1 >= x.1,
            decreases out@.len() - j,
        {
            j = j + 1;
        }
        let ghost o0 = out@;
        out.insert(j, x);
        proof {
            assert(v@.take(i + 1) =~= v@.take(i as int).push(x));
            assert forall|k: i64| #[trigger] keyed(out@, k) == keyed(v@.take(i + 1), k) by {
                lemma_keyed_insert(o0, j as int, x, k);
                assert(out@ == o0.insert(j as int, x));
                lemma_keyed_push(v@.take(i as int), x, k);
            }
            if v@.no_duplicates() {
                assert(!o0.contains(x));
                assert forall|a: int, b: int| 0 <= a < b < out@.len() implies out@[a] != out@[b] by {
                    if b < j {
                        assert(out@[a] == o0[a] && out@[b] == o0[b]);
                    } else if b == j {
                        assert(out@[a] == o0[a]);
                    } else if a < j {
                        assert(out@[a] == o0[a] && out@[b] == o0[b - 1]);
                    } else if a == j {
                        assert(out@[b] == o0[b - 1]);
                    } else {
                        assert(out@[a] == o0[a - 1] && out@[b] == o0[b - 1]);
                    }
                }
            }
            assert forall|a: int, b: int| 0 <= a < b < out@.len() implies out@[a].1 >= out@[b].1 by {
                if b < j {
                    assert(out@[a] == o0[a]);
                    assert(out@[b] == o0[b]);
                } else if b == j {
                    assert(out@[a] == o0[a]);
                } else if a < j {
                    assert(out@[a] == o0[a]);
                    assert(out@[b] == o0[b - 1]);
                } else if a == j {
                    assert(out@[b] == o0[b - 1]);
                    if j < o0.len() {
                        assert(o0[j as int].1 < x.1);
                        assert(o0[j as int].1 >= o0[b - 1].1);
                    }
                } else {
                    assert(out@[a] == o0[a - 1]);
                    assert(out@[b] == o0[b - 1]);
                }
            }
        }
        i = i + 1;
    }
    proof {
        assert(v@.take(n as int) =~= v@);
        assert forall|k: i64| #[trigger] keyed(out@, k) == keyed(v@, k) by {
            assert(keyed(out@, k) == keyed(v@.take(n as int), k));
        }
        assert forall|x: (T, i64)| #[trigger] out@.contains(x) <==> v@.contains(x) by {
            assert(out@.to_multiset().count(x) == v@.to_multiset().count(x));
        }
    }
    out
}

} // verus!
