//! What "sorted by key, ties in arrival order" means, as a function on
//! sequences of records, and the laws that characterise it.

use crate::record::Record;
use vstd::prelude::*;

verus! {

/// Keys never decrease from one position to a later one.
pub open spec fn ordered(s: Seq<Record>) -> bool {
    forall|i: int, j: int| 0 <= i < j < s.len() ==> s[i].key <= s[j].key
}

/// Every key in `s` is at least `bound`.
pub open spec fn keys_at_least(s: Seq<Record>, bound: int) -> bool {
    forall|i: int| 0 <= i < s.len() ==> #[trigger] s[i].key >= bound
}

/// The records of `s` that carry key `k`, in the order in which `s` holds them.
pub open spec fn with_key(s: Seq<Record>, k: u32) -> Seq<Record>
    decreases s.len(),
{
    if s.len() == 0 {
        s
    } else if s.last().key == k {
        with_key(s.drop_last(), k).push(s.last())
    } else {
        with_key(s.drop_last(), k)
    }
}

/// The first position of `s` whose key exceeds `key`, or the length of `s`.
pub open spec fn upper_bound(s: Seq<Record>, key: u32) -> int
    decreases s.len(),
{
    if s.len() == 0 || s[0].key > key {
        0
    } else {
        1 + upper_bound(s.drop_first(), key)
    }
}

/// `r` placed behind every leading record whose key does not exceed its own.
pub open spec fn insert_by_key(s: Seq<Record>, r: Record) -> Seq<Record> {
    s.insert(upper_bound(s, r.key), r)
}

/// The records of `s` in ascending key order, records of equal key in the
/// order in which they arrived.
pub open spec fn stable_sort(s: Seq<Record>) -> Seq<Record>
    decreases s.len(),
{
    if s.len() == 0 {
        s
    } else {
        insert_by_key(stable_sort(s.drop_last()), s.last())
    }
}

/// Up to `upper_bound` no key exceeds `key`; the key at `upper_bound` does.
pub proof fn lemma_upper_bound(s: Seq<Record>, key: u32)
    ensures
        0 <= upper_bound(s, key) <= s.len(),
        forall|i: int| 0 <= i < upper_bound(s, key) ==> s[i].key <= key,
        upper_bound(s, key) < s.len() ==> s[upper_bound(s, key)].key > key,
    decreases s.len(),
{
    if s.len() != 0 && s[0].key <= key {
        let rest = s.drop_first();
        lemma_upper_bound(rest, key);
        assert forall|i: int| 0 <= i < upper_bound(s, key) implies s[i].key <= key by {
            if i > 0 {
                assert(s[i] == rest[i - 1]);
            }
        }
        if upper_bound(s, key) < s.len() {
            assert(s[upper_bound(s, key)] == rest[upper_bound(rest, key)]);
        }
    }
}

/// The records of key `k` in two runs joined are those of the first run,
/// then those of the second.
pub proof fn lemma_with_key_concat(a: Seq<Record>, b: Seq<Record>, k: u32)
    ensures
        with_key(a + b, k) == with_key(a, k) + with_key(b, k),
    decreases b.len(),
{
    if b.len() == 0 {
        assert(a + b =~= a);
        assert(with_key(a, k) + with_key(b, k) =~= with_key(a, k));
    } else {
        lemma_with_key_concat(a, b.drop_last(), k);
        assert((a + b).drop_last() =~= a + b.drop_last());
        assert((a + b).last() == b.last());
        if b.last().key == k {
            assert(with_key(a, k) + with_key(b.drop_last(), k).push(b.last()) =~= (with_key(a, k)
                + with_key(b.drop_last(), k)).push(b.last()));
        }
    }
}

/// Every record of `with_key(s, k)` carries key `k`, and there are none
/// exactly when `s` holds no record with that key.
pub proof fn lemma_with_key_members(s: Seq<Record>, k: u32)
    ensures
        with_key(s, k).len() <= s.len(),
        forall|i: int| 0 <= i < with_key(s, k).len() ==> (#[trigger] with_key(s, k)[i]).key == k,
        with_key(s, k).len() == 0 <==> forall|i: int| 0 <= i < s.len() ==> (#[trigger] s[i]).key
            != k,
    decreases s.len(),
{
    if s.len() != 0 {
        let front = s.drop_last();
        lemma_with_key_members(front, k);
        if s.last().key == k {
            assert(s[s.len() - 1].key == k);
        } else {
            if with_key(s, k).len() == 0 {
                assert forall|i: int| 0 <= i < s.len() implies (#[trigger] s[i]).key != k by {
                    if i < s.len() - 1 {
                        assert(s[i] == front[i]);
                    }
                }
            } else {
                let i = choose|i: int| 0 <= i < front.len() && (#[trigger] front[i]).key == k;
                assert(s[i] == front[i]);
            }
        }
    }
}

/// Sorting neither adds nor drops records.
pub proof fn lemma_sort_len(s: Seq<Record>)
    ensures
        stable_sort(s).len() == s.len(),
    decreases s.len(),
{
    if s.len() != 0 {
        lemma_sort_len(s.drop_last());
        lemma_upper_bound(stable_sort(s.drop_last()), s.last().key);
    }
}

/// A lower bound on the keys of `s` bounds the keys of its sorted form.
pub proof fn lemma_sort_keys_at_least(s: Seq<Record>, bound: int)
    requires
        keys_at_least(s, bound),
    ensures
        keys_at_least(stable_sort(s), bound),
    decreases s.len(),
{
    if s.len() != 0 {
        let front = s.drop_last();
        assert forall|i: int| 0 <= i < front.len() implies #[trigger] front[i].key >= bound by {
            assert(front[i] == s[i]);
        }
        lemma_sort_keys_at_least(front, bound);
        let t = stable_sort(front);
        lemma_upper_bound(t, s.last().key);
        assert(s[s.len() - 1].key >= bound);
    }
}

/// Every record of the sorted form is a record of `s`.
pub proof fn lemma_sort_contains(s: Seq<Record>)
    ensures
        forall|i: int| 0 <= i < stable_sort(s).len() ==> s.contains(#[trigger] stable_sort(s)[i]),
    decreases s.len(),
{
    if s.len() != 0 {
        let front = s.drop_last();
        let t = stable_sort(front);
        lemma_sort_contains(front);
        lemma_upper_bound(t, s.last().key);
        let p = upper_bound(t, s.last().key);
        let u = stable_sort(s);
        assert forall|i: int| 0 <= i < u.len() implies s.contains(#[trigger] u[i]) by {
            if i == p {
                assert(s[s.len() - 1] == u[i]);
            } else {
                let old_i = if i < p { i } else { i - 1 };
                assert(u[i] == t[old_i]);
                assert(front.contains(t[old_i]));
                let j = choose|j: int| 0 <= j < front.len() && front[j] == t[old_i];
                assert(s[j] == u[i]);
            }
        }
    }
}

/// Inserting into a key-ordered sequence leaves it key-ordered.
pub proof fn lemma_insert_ordered(s: Seq<Record>, r: Record)
    requires
        ordered(s),
    ensures
        ordered(insert_by_key(s, r)),
{
    lemma_upper_bound(s, r.key);
    let p = upper_bound(s, r.key);
    let t = insert_by_key(s, r);
    assert forall|i: int, j: int| 0 <= i < j < t.len() implies t[i].key <= t[j].key by {
        if j < p {
            assert(t[i] == s[i] && t[j] == s[j]);
        } else if j == p {
            assert(t[i] == s[i]);
        } else if i < p {
            assert(t[i] == s[i] && t[j] == s[j - 1]);
        } else if i == p {
            assert(t[j] == s[j - 1]);
            assert(s[p].key <= s[j - 1].key);
        } else {
            assert(t[i] == s[i - 1] && t[j] == s[j - 1]);
        }
    }
}

/// In the sorted form keys never decrease.
pub proof fn lemma_sort_ordered(s: Seq<Record>)
    ensures
        ordered(stable_sort(s)),
    decreases s.len(),
{
    if s.len() != 0 {
        lemma_sort_ordered(s.drop_last());
        lemma_insert_ordered(stable_sort(s.drop_last()), s.last());
    }
}

/// An inserted record comes last among the records of its key, and the
/// records of other keys stay as they were.
pub proof fn lemma_insert_with_key(s: Seq<Record>, r: Record, k: u32)
    requires
        ordered(s),
    ensures
        with_key(insert_by_key(s, r), k) == if r.key == k {
            with_key(s, k).push(r)
        } else {
            with_key(s, k)
        },
{
    lemma_upper_bound(s, r.key);
    let p = upper_bound(s, r.key);
    let head = s.take(p);
    let tail = s.skip(p);
    let one = seq![r];
    assert(s =~= head + tail);
    assert(insert_by_key(s, r) =~= (head + one) + tail);
    lemma_with_key_concat(head, tail, k);
    lemma_with_key_concat(head + one, tail, k);
    lemma_with_key_concat(head, one, k);
    assert(one.drop_last() =~= Seq::<Record>::empty());
    assert(with_key(one.drop_last(), k) =~= Seq::<Record>::empty());
    if r.key == k {
        assert(with_key(one, k) =~= one);
        lemma_with_key_members(tail, k);
        assert forall|i: int| 0 <= i < tail.len() implies (#[trigger] tail[i]).key != k by {
            assert(tail[i] == s[p + i]);
            if i > 0 {
                assert(s[p].key <= s[p + i].key);
            }
        }
        assert(with_key(tail, k) =~= Seq::<Record>::empty());
        assert(with_key(s, k) =~= with_key(head, k));
        assert(with_key(insert_by_key(s, r), k) =~= with_key(head, k).push(r));
    } else {
        assert(with_key(one, k) =~= Seq::<Record>::empty());
        assert(with_key(head + one, k) =~= with_key(head, k));
    }
}

/// Sorting is stable: for each key, the records that carry it keep the order
/// in which they arrived.
pub proof fn lemma_sort_stable(s: Seq<Record>, k: u32)
    ensures
        with_key(stable_sort(s), k) == with_key(s, k),
    decreases s.len(),
{
    if s.len() != 0 {
        lemma_sort_stable(s.drop_last(), k);
        lemma_sort_ordered(s.drop_last());
        lemma_insert_with_key(stable_sort(s.drop_last()), s.last(), k);
    }
}

/// Two key-ordered sequences that agree, key by key, on the records they hold
/// and on their order are the same sequence.
pub proof fn lemma_ordered_unique(a: Seq<Record>, b: Seq<Record>)
    requires
        ordered(a),
        ordered(b),
        forall|k: u32| #[trigger] with_key(a, k) == with_key(b, k),
    ensures
        a == b,
    decreases a.len(),
{
    if a.len() == 0 {
        if b.len() != 0 {
            lemma_with_key_members(a, b.last().key);
            lemma_with_key_members(b, b.last().key);
            assert(with_key(a, b.last().key) == with_key(b, b.last().key));
            assert(b[b.len() - 1].key == b.last().key);
        }
        assert(a =~= b);
    } else {
        let ka = a.last().key;
        lemma_with_key_members(a, ka);
        lemma_with_key_members(b, ka);
        assert(with_key(a, ka) == with_key(b, ka));
        assert(a[a.len() - 1].key == ka);
        assert(b.len() != 0);
        let kb = b.last().key;
        lemma_with_key_members(a, kb);
        lemma_with_key_members(b, kb);
        assert(with_key(a, kb) == with_key(b, kb));
        assert(b[b.len() - 1].key == kb);
        let ia = choose|i: int| 0 <= i < a.len() && (#[trigger] a[i]).key == kb;
        let ib = choose|i: int| 0 <= i < b.len() && (#[trigger] b[i]).key == ka;
        assert(a[ia].key <= a[a.len() - 1].key);
        assert(b[ib].key <= b[b.len() - 1].key);
        assert(ka == kb);
        assert(a.last() == with_key(a, ka).last());
        assert(b.last() == with_key(b, ka).last());
        let a0 = a.drop_last();
        let b0 = b.drop_last();
        assert forall|k: u32| #[trigger] with_key(a0, k) == with_key(b0, k) by {
            assert(with_key(a, k) == with_key(b, k));
            if k == ka {
                assert(with_key(a0, k) =~= with_key(a, k).drop_last());
                assert(with_key(b0, k) =~= with_key(b, k).drop_last());
            }
        }
        lemma_ordered_unique(a0, b0);
        assert(a =~= a0.push(a.last()));
        assert(b =~= b0.push(b.last()));
    }
}

/// The sorted form is the only key-ordered arrangement that keeps, for every
/// key, the arrival order of the records that carry it.
pub proof fn lemma_sort_unique(s: Seq<Record>, t: Seq<Record>)
    requires
        ordered(t),
        forall|k: u32| #[trigger] with_key(t, k) == with_key(s, k),
    ensures
        t == stable_sort(s),
{
    lemma_sort_ordered(s);
    assert forall|k: u32| #[trigger] with_key(t, k) == with_key(stable_sort(s), k) by {
        lemma_sort_stable(s, k);
        assert(with_key(t, k) == with_key(s, k));
    }
    lemma_ordered_unique(t, stable_sort(s));
}

/// A record that precedes only larger keys and is followed by no smaller key
/// comes first in the sorted form; the rest is the sorted form of the others.
pub proof fn lemma_sort_least_first(a: Seq<Record>, x: Record, b: Seq<Record>)
    requires
        keys_at_least(a, x.key + 1),
        keys_at_least(b, x.key as int),
    ensures
        stable_sort(a + seq![x] + b) == seq![x] + stable_sort(a + b),
{
    let s = a + seq![x] + b;
    let one = seq![x];
    let rest = stable_sort(a + b);
    let t = one + rest;
    assert(keys_at_least(a + b, x.key as int)) by {
        assert forall|i: int| 0 <= i < (a + b).len() implies #[trigger] (a + b)[i].key
            >= x.key as int by {
            if i < a.len() {
                assert((a + b)[i] == a[i]);
            } else {
                assert((a + b)[i] == b[i - a.len()]);
            }
        }
    }
    lemma_sort_keys_at_least(a + b, x.key as int);
    lemma_sort_ordered(a + b);
    assert(ordered(t)) by {
        assert forall|i: int, j: int| 0 <= i < j < t.len() implies t[i].key <= t[j].key by {
            assert(t[j] == rest[j - 1]);
            if i > 0 {
                assert(t[i] == rest[i - 1]);
            }
        }
    }
    assert(one.drop_last() =~= Seq::<Record>::empty());
    assert forall|k: u32| #[trigger] with_key(t, k) == with_key(s, k) by {
        lemma_with_key_concat(one, rest, k);
        lemma_sort_stable(a + b, k);
        lemma_with_key_concat(a, b, k);
        lemma_with_key_concat(a + one, b, k);
        lemma_with_key_concat(a, one, k);
        assert(with_key(one.drop_last(), k) =~= Seq::<Record>::empty());
        if k == x.key {
            lemma_with_key_members(a, k);
            assert(with_key(a, k) =~= Seq::<Record>::empty());
            assert(with_key(t, k) =~= with_key(s, k));
        } else {
            assert(with_key(one, k) =~= Seq::<Record>::empty());
            assert(with_key(t, k) =~= with_key(s, k));
        }
    }
    lemma_sort_unique(s, t);
}

} // verus!
