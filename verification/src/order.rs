//! Lexicographic order on strings, and entry lists kept sorted by a string
//! key with each key once (the ordered maps and sets of the schema).

use crate::escape::str_chars;
use vstd::prelude::*;

verus! {

/// `a` sorts strictly before `b`: compared character by character by code
/// point, a proper prefix first. This is the order of `str`'s `Ord` (UTF-8
/// byte order and code-point order agree).
pub open spec fn str_lt(a: Seq<char>, b: Seq<char>) -> bool
    decreases a.len(),
{
    if a.len() == 0 {
        b.len() > 0
    } else if b.len() == 0 {
        false
    } else if a[0] != b[0] {
        (a[0] as int) < (b[0] as int)
    } else {
        str_lt(a.drop_first(), b.drop_first())
    }
}

/// No string sorts before itself.
pub proof fn lemma_str_lt_irreflexive(a: Seq<char>)
    ensures
        !str_lt(a, a),
    decreases a.len(),
{
    if a.len() > 0 {
        lemma_str_lt_irreflexive(a.drop_first());
    }
}

/// Of two different strings exactly one sorts first.
pub proof fn lemma_str_lt_total(a: Seq<char>, b: Seq<char>)
    ensures
        a != b ==> str_lt(a, b) || str_lt(b, a),
        !(str_lt(a, b) && str_lt(b, a)),
    decreases a.len(),
{
    if a.len() > 0 && b.len() > 0 {
        lemma_str_lt_total(a.drop_first(), b.drop_first());
        if a[0] == b[0] && a != b {
            assert(a.drop_first() != b.drop_first()) by {
                if a.drop_first() == b.drop_first() {
                    assert(a =~= seq![a[0]] + a.drop_first());
                    assert(b =~= seq![b[0]] + b.drop_first());
                }
            }
        }
        if a[0] != b[0] {
            assert((a[0] as int) != (b[0] as int));
        }
    } else if a.len() == 0 && b.len() == 0 {
        assert(a =~= b);
    }
}

/// The order is transitive.
pub proof fn lemma_str_lt_transitive(a: Seq<char>, b: Seq<char>, c: Seq<char>)
    requires
        str_lt(a, b),
        str_lt(b, c),
    ensures
        str_lt(a, c),
    decreases a.len(),
{
    if a.len() > 0 && b.len() > 0 && c.len() > 0 {
        if a[0] == b[0] && b[0] == c[0] {
            lemma_str_lt_transitive(a.drop_first(), b.drop_first(), c.drop_first());
        }
    }
}

/// Whether `a` sorts strictly before `b` (`a < b` on `str`).
pub fn str_less(a: &str, b: &str) -> (r: bool)
    ensures
        r == str_lt(a@, b@),
{
    let x = str_chars(a);
    let y = str_chars(b);
    let mut i: usize = 0;
    proof {
        assert(x@.skip(0) =~= x@);
        assert(y@.skip(0) =~= y@);
    }
    while i < x.len() && i < y.len()
        invariant
            x@ == a@,
            y@ == b@,
            i <= x@.len(),
            i <= y@.len(),
            str_lt(a@, b@) == str_lt(x@.skip(i as int), y@.skip(i as int)),
        decreases x@.len() - i,
    {
        let ghost xs = x@.skip(i as int);
        let ghost ys = y@.skip(i as int);
        proof {
            assert(xs[0] == x@[i as int]);
            assert(ys[0] == y@[i as int]);
        }
        if x[i] != y[i] {
            return x[i] < y[i];
        }
        proof {
            assert(xs.drop_first() =~= x@.skip(i + 1));
            assert(ys.drop_first() =~= y@.skip(i + 1));
        }
        i = i + 1;
    }
    proof {
        assert(x@.skip(i as int).len() == x@.len() - i);
        assert(y@.skip(i as int).len() == y@.len() - i);
    }
    i < y.len()
}

// ─── Sorted entry lists ──────────────────────────────────────────────────

/// Keys strictly ascending (so each key occurs once).
pub open spec fn keys_sorted<V>(s: Seq<(Seq<char>, V)>) -> bool {
    forall|i: int, j: int| 0 <= i < j < s.len() ==> str_lt(#[trigger] s[i].0, #[trigger] s[j].0)
}

/// Some entry has key `k`.
pub open spec fn has_key<V>(s: Seq<(Seq<char>, V)>, k: Seq<char>) -> bool {
    exists|i: int| 0 <= i < s.len() && #[trigger] s[i].0 == k
}

/// The value of the first entry with key `k`.
pub open spec fn lookup<V>(s: Seq<(Seq<char>, V)>, k: Seq<char>) -> Option<V>
    decreases s.len(),
{
    if s.len() == 0 {
        None
    } else if s[0].0 == k {
        Some(s[0].1)
    } else {
        lookup(s.drop_first(), k)
    }
}

/// `s` with `(k, v)` put in key order, replacing an entry with key `k`.
pub open spec fn insert_sorted<V>(s: Seq<(Seq<char>, V)>, k: Seq<char>, v: V) -> Seq<(Seq<char>, V)>
    decreases s.len(),
{
    if s.len() == 0 {
        seq![(k, v)]
    } else if s[0].0 == k {
        seq![(k, v)] + s.drop_first()
    } else if str_lt(k, s[0].0) {
        seq![(k, v)] + s
    } else {
        seq![s[0]] + insert_sorted(s.drop_first(), k, v)
    }
}

/// The keys, in order.
pub open spec fn keys_of<V>(s: Seq<(Seq<char>, V)>) -> Seq<Seq<char>> {
    Seq::new(s.len(), |i: int| s[i].0)
}

/// The distinct strings of `vals`, ascending.
pub open spec fn sorted_set(vals: Seq<Seq<char>>) -> Seq<Seq<char>> {
    keys_of(sorted_set_entries(vals))
}

pub open spec fn sorted_set_entries(vals: Seq<Seq<char>>) -> Seq<(Seq<char>, ())>
    decreases vals.len(),
{
    if vals.len() == 0 {
        Seq::empty()
    } else {
        insert_sorted(sorted_set_entries(vals.drop_last()), vals.last(), ())
    }
}

/// The view of an entry list: keys as characters, values by their views.
pub open spec fn entries_view<V: View>(s: Seq<(String, V)>) -> Seq<(Seq<char>, V::V)> {
    Seq::new(s.len(), |i: int| (s[i].0@, s[i].1@))
}

/// Insertion keeps the keys ascending, adds `k` to the keys, and makes `v`
/// the value found under `k`; the other keys keep their values.
pub proof fn lemma_insert_sorted<V>(s: Seq<(Seq<char>, V)>, k: Seq<char>, v: V)
    requires
        keys_sorted(s),
    ensures
        keys_sorted(insert_sorted(s, k, v)),
        forall|q: Seq<char>|
            #[trigger] lookup(insert_sorted(s, k, v), q) == if q == k {
                Some(v)
            } else {
                lookup(s, q)
            },
        forall|q: Seq<char>| #[trigger] has_key(insert_sorted(s, k, v), q) <==> (has_key(s, q) || q == k),
        insert_sorted(s, k, v).len() == if has_key(s, k) {
            s.len()
        } else {
            s.len() + 1
        },
    decreases s.len(),
{
    let r = insert_sorted(s, k, v);
    if s.len() == 0 {
        assert forall|q: Seq<char>| #[trigger] has_key(r, q) <==> (has_key(s, q) || q == k) by {
            if q == k {
                assert(r[0].0 == k);
            }
        }
        assert forall|q: Seq<char>| #[trigger] lookup(r, q) == if q == k {
            Some(v)
        } else {
            lookup(s, q)
        } by {
            assert(r[0] == (k, v));
            assert(lookup(r, q) == if r[0].0 == q {
                Some(r[0].1)
            } else {
                lookup(r.drop_first(), q)
            });
            assert(lookup(r.drop_first(), q) is None);
            assert(lookup(s, q) is None);
        }
    } else {
        let t = s.drop_first();
        assert(keys_sorted(t)) by {
            assert forall|i: int, j: int| 0 <= i < j < t.len() implies str_lt(#[trigger] t[i].0, #[trigger] t[j].0) by {
                assert(t[i] == s[i + 1] && t[j] == s[j + 1]);
            }
        }
        assert forall|q: Seq<char>| #[trigger] has_key(s, q) <==> (s[0].0 == q || has_key(t, q)) by {
            if has_key(s, q) && s[0].0 != q {
                let i = choose|i: int| 0 <= i < s.len() && #[trigger] s[i].0 == q;
                assert(t[i - 1].0 == q);
            }
            if has_key(t, q) {
                let i = choose|i: int| 0 <= i < t.len() && #[trigger] t[i].0 == q;
                assert(s[i + 1].0 == q);
            }
        }
        if s[0].0 == k {
            assert(r =~= seq![(k, v)] + t);
            assert(r.drop_first() =~= t);
            assert(keys_sorted(r)) by {
                assert forall|i: int, j: int| 0 <= i < j < r.len() implies str_lt(#[trigger] r[i].0, #[trigger] r[j].0) by {
                    assert(r[j] == s[j]);
                    if i > 0 {
                        assert(r[i] == s[i]);
                    }
                }
            }
            assert forall|q: Seq<char>| #[trigger] has_key(r, q) <==> (has_key(s, q) || q == k) by {
                if has_key(r, q) && r[0].0 != q {
                    let i = choose|i: int| 0 <= i < r.len() && #[trigger] r[i].0 == q;
                    assert(s[i].0 == q);
                }
                if has_key(s, q) && q != k {
                    let i = choose|i: int| 0 <= i < s.len() && #[trigger] s[i].0 == q;
                    assert(r[i].0 == q);
                }
                if q == k {
                    assert(r[0].0 == q);
                }
            }
            assert(has_key(s, k)) by {
                assert(s[0].0 == k);
            }
            assert forall|q: Seq<char>| #[trigger] lookup(r, q) == if q == k {
                Some(v)
            } else {
                lookup(s, q)
            } by {
                assert(lookup(r, q) == if r[0].0 == q {
                    Some(r[0].1)
                } else {
                    lookup(r.drop_first(), q)
                });
                assert(lookup(s, q) == if s[0].0 == q {
                    Some(s[0].1)
                } else {
                    lookup(t, q)
                });
            }
        } else if str_lt(k, s[0].0) {
            assert(r =~= seq![(k, v)] + s);
            assert(r.drop_first() =~= s);
            assert(keys_sorted(r)) by {
                assert forall|i: int, j: int| 0 <= i < j < r.len() implies str_lt(#[trigger] r[i].0, #[trigger] r[j].0) by {
                    assert(r[j] == s[j - 1]);
                    if i > 0 {
                        assert(r[i] == s[i - 1]);
                    } else if j > 1 {
                        lemma_str_lt_transitive(k, s[0].0, s[j - 1].0);
                    }
                }
            }
            assert(!has_key(s, k)) by {
                if has_key(s, k) {
                    let i = choose|i: int| 0 <= i < s.len() && #[trigger] s[i].0 == k;
                    if i > 0 {
                        lemma_str_lt_transitive(k, s[0].0, s[i].0);
                    }
                    lemma_str_lt_irreflexive(k);
                }
            }
            assert forall|q: Seq<char>| #[trigger] has_key(r, q) <==> (has_key(s, q) || q == k) by {
                if has_key(r, q) && r[0].0 != q {
                    let i = choose|i: int| 0 <= i < r.len() && #[trigger] r[i].0 == q;
                    assert(s[i - 1].0 == q);
                }
                if has_key(s, q) {
                    let i = choose|i: int| 0 <= i < s.len() && #[trigger] s[i].0 == q;
                    assert(r[i + 1].0 == q);
                }
                if q == k {
                    assert(r[0].0 == q);
                }
            }
            assert forall|q: Seq<char>| #[trigger] lookup(r, q) == if q == k {
                Some(v)
            } else {
                lookup(s, q)
            } by {
                assert(lookup(r, q) == if r[0].0 == q {
                    Some(r[0].1)
                } else {
                    lookup(r.drop_first(), q)
                });
            }
        } else {
            lemma_str_lt_total(k, s[0].0);
            lemma_insert_sorted(t, k, v);
            let rt = insert_sorted(t, k, v);
            assert(r =~= seq![s[0]] + rt);
            assert(r.drop_first() =~= rt);
            assert forall|q: Seq<char>| #[trigger] has_key(r, q) <==> (r[0].0 == q || has_key(rt, q)) by {
                if has_key(r, q) && r[0].0 != q {
                    let i = choose|i: int| 0 <= i < r.len() && #[trigger] r[i].0 == q;
                    assert(rt[i - 1].0 == q);
                }
                if has_key(rt, q) {
                    let i = choose|i: int| 0 <= i < rt.len() && #[trigger] rt[i].0 == q;
                    assert(r[i + 1].0 == q);
                }
            }
            assert(keys_sorted(r)) by {
                assert forall|i: int, j: int| 0 <= i < j < r.len() implies str_lt(#[trigger] r[i].0, #[trigger] r[j].0) by {
                    assert(r[j] == rt[j - 1]);
                    if i > 0 {
                        assert(r[i] == rt[i - 1]);
                    } else {
                        // r[j] is either k or a key of t, both after s[0].
                        assert(has_key(rt, rt[j - 1].0));
                        if rt[j - 1].0 != k {
                            assert(has_key(t, rt[j - 1].0));
                            let m = choose|m: int| 0 <= m < t.len() && #[trigger] t[m].0 == rt[j - 1].0;
                            assert(s[m + 1].0 == t[m].0);
                        }
                    }
                }
            }
            assert(s[0].0 != k);
            assert forall|q: Seq<char>| #[trigger] lookup(r, q) == if q == k {
                Some(v)
            } else {
                lookup(s, q)
            } by {
                assert(lookup(r, q) == if r[0].0 == q {
                    Some(r[0].1)
                } else {
                    lookup(r.drop_first(), q)
                });
            }
        }
    }
}

/// Inserting at the place found by a scan: when every key before `i`
/// sorts before `k` and the key at `i` (if any) does not, insertion is a
/// replacement at `i` (same key) or an insertion at `i`.
proof fn lemma_insert_at<V>(s: Seq<(Seq<char>, V)>, k: Seq<char>, v: V, i: int)
    requires
        keys_sorted(s),
        0 <= i <= s.len(),
        forall|j: int| 0 <= j < i ==> str_lt(#[trigger] s[j].0, k),
        i < s.len() ==> !str_lt(s[i].0, k),
    ensures
        insert_sorted(s, k, v) == if i < s.len() && s[i].0 == k {
            s.update(i, (k, v))
        } else {
            s.insert(i, (k, v))
        },
    decreases s.len(),
{
    if s.len() > 0 {
        let t = s.drop_first();
        if i > 0 {
            assert(str_lt(s[0].0, k));
            lemma_str_lt_irreflexive(k);
            lemma_str_lt_total(k, s[0].0);
            assert(keys_sorted(t)) by {
                assert forall|a: int, b: int| 0 <= a < b < t.len() implies str_lt(#[trigger] t[a].0, #[trigger] t[b].0) by {
                    assert(t[a] == s[a + 1] && t[b] == s[b + 1]);
                }
            }
            assert forall|j: int| 0 <= j < i - 1 implies str_lt(#[trigger] t[j].0, k) by {
                assert(t[j] == s[j + 1]);
            }
            lemma_insert_at(t, k, v, i - 1);
            if i < s.len() && s[i].0 == k {
                assert(insert_sorted(s, k, v) =~= s.update(i, (k, v)));
            } else {
                assert(insert_sorted(s, k, v) =~= s.insert(i, (k, v)));
            }
        } else {
            lemma_str_lt_total(k, s[0].0);
            if s[0].0 == k {
                assert(insert_sorted(s, k, v) =~= s.update(0, (k, v)));
            } else {
                assert(str_lt(k, s[0].0));
                assert(insert_sorted(s, k, v) =~= s.insert(0, (k, v)));
            }
        }
    }
}

/// Put `(key, val)` into the key-ordered list `entries`, replacing an entry
/// with the same key; returns whether one was replaced.
pub fn insert_entry<V: View>(entries: &mut Vec<(String, V)>, key: String, val: V) -> (replaced: bool)
    requires
        keys_sorted(entries_view(old(entries)@)),
    ensures
        entries_view(final(entries)@) == insert_sorted(entries_view(old(entries)@), key@, val@),
        replaced == has_key(entries_view(old(entries)@), key@),
{
    let ghost s = entries_view(entries@);
    let mut i: usize = 0;
    while i < entries.len() && str_less(entries[i].0.as_str(), key.as_str())
        invariant
            s == entries_view(entries@),
            i <= entries@.len(),
            forall|j: int| 0 <= j < i ==> str_lt(#[trigger] s[j].0, key@),
        decreases entries@.len() - i,
    {
        i = i + 1;
    }
    proof {
        lemma_insert_at(s, key@, val@, i as int);
        lemma_insert_sorted(s, key@, val@);
    }
    if i < entries.len() && crate::source::str_eq(entries[i].0.as_str(), key.as_str()) {
        let ghost kv = key@;
        entries.set(i, (key, val));
        proof {
            assert(entries_view(entries@) =~= s.update(i as int, (kv, val@)));
            assert(has_key(s, kv)) by {
                assert(s[i as int].0 == kv);
            }
        }
        true
    } else {
        let ghost kv = key@;
        let ghost vv = val@;
        entries.insert(i, (key, val));
        proof {
            assert(entries_view(entries@) =~= s.insert(i as int, (kv, vv)));
            assert(insert_sorted(s, kv, vv).len() == s.len() + 1);
        }
        false
    }
}

/// The strings of `vals` without repeats, ascending.
pub fn sorted_unique(vals: &Vec<String>) -> (r: Vec<String>)
    ensures
        r@.len() == sorted_set(vals@.map_values(|s: String| s@)).len(),
        forall|i: int| 0 <= i < r@.len() ==> #[trigger] r@[i]@ == sorted_set(vals@.map_values(|s: String| s@))[i],
{
    let ghost vs = vals@.map_values(|s: String| s@);
    let mut acc: Vec<(String, ())> = Vec::new();
    let mut i: usize = 0;
    proof {
        assert(vs.take(0) =~= Seq::<Seq<char>>::empty());
        assert(entries_view(acc@) =~= sorted_set_entries(vs.take(0)));
    }
    while i < vals.len()
        invariant
            vs == vals@.map_values(|s: String| s@),
            i <= vals@.len(),
            entries_view(acc@) == sorted_set_entries(vs.take(i as int)),
            keys_sorted(entries_view(acc@)),
        decreases vals@.len() - i,
    {
        proof {
            assert(vs.take(i + 1).drop_last() =~= vs.take(i as int));
            assert(vs.take(i + 1).last() == vals@[i as int]@);
            lemma_insert_sorted(entries_view(acc@), vals@[i as int]@, ());
        }
        insert_entry(&mut acc, vals[i].clone(), ());
        i = i + 1;
    }
    proof {
        assert(vs.take(vals@.len() as int) =~= vs);
    }
    let mut out: Vec<String> = Vec::new();
    let mut k: usize = 0;
    while k < acc.len()
        invariant
            k <= acc@.len(),
            out@.len() == k,
            forall|j: int| 0 <= j < k ==> #[trigger] out@[j]@ == acc@[j].0@,
        decreases acc@.len() - k,
    {
        out.push(acc[k].0.clone());
        k = k + 1;
    }
    proof {
        assert(entries_view(acc@) == sorted_set_entries(vs));
        assert forall|j: int| 0 <= j < out@.len() implies #[trigger] out@[j]@ == sorted_set(vs)[j] by {
            assert(entries_view(acc@)[j].0 == acc@[j].0@);
        }
    }
    out
}

} // verus!
