//! Sorting a run of lines by key: a merge sort on positions, which moves no
//! text until the order is known.

use crate::order::{
    keys_at_least, lemma_sort_least_first, lemma_sort_ordered, lemma_sort_stable,
    lemma_sort_unique, lemma_with_key_concat, ordered, stable_sort, with_key,
};
use crate::record::{records, Line, Record};
use vstd::prelude::*;

verus! {

/// The records at the positions that `order` names, in the order of `order`.
pub open spec fn picked(lines: Seq<Record>, order: Seq<usize>) -> Seq<Record> {
    Seq::new(order.len(), |i: int| lines[order[i] as int])
}

/// `order` names every position from `lo` up to, not including, `hi` once.
pub open spec fn arranges(order: Seq<usize>, lo: int, hi: int) -> bool {
    &&& order.len() == hi - lo
    &&& forall|i: int| 0 <= i < order.len() ==> lo <= #[trigger] order[i] < hi
    &&& forall|i: int, j: int| 0 <= i < j < order.len() ==> order[i] != order[j]
}

/// Sorting two runs that are sorted already, joined, is sorting the runs as
/// they were, joined.
pub proof fn lemma_sort_of_sorted_parts(a: Seq<Record>, b: Seq<Record>)
    ensures
        stable_sort(stable_sort(a) + stable_sort(b)) == stable_sort(a + b),
{
    let joined = stable_sort(a) + stable_sort(b);
    let t = stable_sort(joined);
    lemma_sort_ordered(joined);
    assert forall|k: u32| #[trigger] with_key(t, k) == with_key(a + b, k) by {
        lemma_sort_stable(joined, k);
        lemma_with_key_concat(stable_sort(a), stable_sort(b), k);
        lemma_with_key_concat(a, b, k);
        lemma_sort_stable(a, k);
        lemma_sort_stable(b, k);
    }
    lemma_sort_unique(a + b, t);
}

/// With the least key at the head of the left run, that head comes first.
proof fn lemma_merge_left(a: Seq<Record>, b: Seq<Record>, i: int, j: int)
    requires
        ordered(a),
        ordered(b),
        0 <= i < a.len(),
        0 <= j <= b.len(),
        j < b.len() ==> a[i].key <= b[j].key,
    ensures
        stable_sort(a.skip(i) + b.skip(j)) == seq![a[i]] + stable_sort(a.skip(i + 1) + b.skip(j)),
{
    let later = a.skip(i + 1) + b.skip(j);
    assert(a.skip(i) + b.skip(j) =~= Seq::<Record>::empty() + seq![a[i]] + later);
    assert(keys_at_least(later, a[i].key as int)) by {
        assert forall|t: int| 0 <= t < later.len() implies #[trigger] later[t].key >= a[i].key by {
            if t < a.len() - i - 1 {
                assert(later[t] == a[i + 1 + t]);
            } else {
                let u = t - (a.len() - i - 1);
                assert(later[t] == b[j + u]);
                assert(b[j].key <= b[j + u].key);
            }
        }
    }
    lemma_sort_least_first(Seq::empty(), a[i], later);
    assert(Seq::<Record>::empty() + later =~= later);
}

/// With a smaller key at the head of the right run, that head comes first.
proof fn lemma_merge_right(a: Seq<Record>, b: Seq<Record>, i: int, j: int)
    requires
        ordered(a),
        ordered(b),
        0 <= i <= a.len(),
        0 <= j < b.len(),
        i < a.len() ==> b[j].key < a[i].key,
    ensures
        stable_sort(a.skip(i) + b.skip(j)) == seq![b[j]] + stable_sort(a.skip(i) + b.skip(j + 1)),
{
    let rest_a = a.skip(i);
    let later = b.skip(j + 1);
    assert(rest_a + b.skip(j) =~= rest_a + seq![b[j]] + later);
    assert(keys_at_least(rest_a, b[j].key + 1)) by {
        assert forall|t: int| 0 <= t < rest_a.len() implies #[trigger] rest_a[t].key >= b[j].key
            + 1 by {
            assert(rest_a[t] == a[i + t]);
            assert(a[i].key <= a[i + t].key);
        }
    }
    assert(keys_at_least(later, b[j].key as int)) by {
        assert forall|t: int| 0 <= t < later.len() implies #[trigger] later[t].key >= b[j].key by {
            assert(later[t] == b[j + 1 + t]);
        }
    }
    lemma_sort_least_first(rest_a, b[j], later);
}

/// Merges the positions of two sorted stretches of `lines` that lie side by
/// side. On equal keys the position from `left` goes first.
fn merge_positions(
    lines: &Vec<Line>,
    left: &Vec<usize>,
    right: &Vec<usize>,
    Ghost(lo): Ghost<int>,
    Ghost(mid): Ghost<int>,
    Ghost(hi): Ghost<int>,
) -> (out: Vec<usize>)
    requires
        0 <= lo <= mid <= hi <= lines@.len(),
        arranges(left@, lo, mid),
        arranges(right@, mid, hi),
        ordered(picked(records(lines@), left@)),
        ordered(picked(records(lines@), right@)),
    ensures
        arranges(out@, lo, hi),
        picked(records(lines@), out@) == stable_sort(
            picked(records(lines@), left@) + picked(records(lines@), right@),
        ),
{
    let ghost all = records(lines@);
    let ghost a = picked(all, left@);
    let ghost b = picked(all, right@);
    let mut out: Vec<usize> = Vec::new();
    let mut i: usize = 0;
    let mut j: usize = 0;
    proof {
        assert(a.skip(0) =~= a);
        assert(b.skip(0) =~= b);
        assert(picked(all, out@) =~= Seq::<Record>::empty());
        assert(picked(all, out@) + stable_sort(a + b) =~= stable_sort(a + b));
    }
    while i < left.len() || j < right.len()
        invariant
            0 <= lo <= mid <= hi <= lines@.len(),
            all == records(lines@),
            a == picked(all, left@),
            b == picked(all, right@),
            arranges(left@, lo, mid),
            arranges(right@, mid, hi),
            ordered(a),
            ordered(b),
            i <= left@.len(),
            j <= right@.len(),
            out@.len() == i + j,
            forall|t: int| 0 <= t < out@.len() ==> lo <= #[trigger] out@[t] < hi,
            forall|t: int, s: int|
                #![trigger out@[t], left@[s]]
                0 <= t < out@.len() && i <= s < left@.len() ==> out@[t] != left@[s],
            forall|t: int, s: int|
                #![trigger out@[t], right@[s]]
                0 <= t < out@.len() && j <= s < right@.len() ==> out@[t] != right@[s],
            forall|s: int, t: int| 0 <= s < t < out@.len() ==> out@[s] != out@[t],
            picked(all, out@) + stable_sort(a.skip(i as int) + b.skip(j as int)) == stable_sort(
                a + b,
            ),
        decreases left@.len() - i + right@.len() - j,
    {
        let ghost done = picked(all, out@);
        let ghost before = out@;
        let take_left = if j >= right.len() {
            true
        } else if i >= left.len() {
            false
        } else {
            lines[left[i]].0 <= lines[right[j]].0
        };
        if take_left {
            let x = left[i];
            proof {
                lemma_merge_left(a, b, i as int, j as int);
            }
            out.push(x);
            proof {
                assert(picked(all, out@) =~= done + seq![a[i as int]]);
                assert((done + seq![a[i as int]]) + stable_sort(a.skip(i + 1) + b.skip(j as int))
                    =~= done + (seq![a[i as int]] + stable_sort(a.skip(i + 1) + b.skip(j as int))));
                assert forall|t: int, s: int|
                    #![trigger out@[t], right@[s]]
                    0 <= t < out@.len() && j <= s < right@.len() implies out@[t] != right@[s] by {
                    if t < before.len() {
                        assert(out@[t] == before[t]);
                    } else {
                        assert(left@[i as int] < mid);
                        assert(right@[s] >= mid);
                    }
                }
                assert forall|t: int, s: int|
                    #![trigger out@[t], left@[s]]
                    0 <= t < out@.len() && i + 1 <= s < left@.len() implies out@[t] != left@[s] by {
                    if t < before.len() {
                        assert(out@[t] == before[t]);
                    }
                }
                assert forall|s: int, t: int| 0 <= s < t < out@.len() implies out@[s] != out@[t] by {
                    if t == before.len() {
                        assert(before[s] != left@[i as int]);
                    } else {
                        assert(out@[s] == before[s] && out@[t] == before[t]);
                    }
                }
            }
            i += 1;
        } else {
            let y = right[j];
            proof {
                lemma_merge_right(a, b, i as int, j as int);
            }
            out.push(y);
            proof {
                assert(picked(all, out@) =~= done + seq![b[j as int]]);
                assert((done + seq![b[j as int]]) + stable_sort(a.skip(i as int) + b.skip(j + 1))
                    =~= done + (seq![b[j as int]] + stable_sort(a.skip(i as int) + b.skip(j + 1))));
                assert forall|t: int, s: int|
                    #![trigger out@[t], left@[s]]
                    0 <= t < out@.len() && i <= s < left@.len() implies out@[t] != left@[s] by {
                    if t < before.len() {
                        assert(out@[t] == before[t]);
                    } else {
                        assert(right@[j as int] >= mid);
                        assert(left@[s] < mid);
                    }
                }
                assert forall|t: int, s: int|
                    #![trigger out@[t], right@[s]]
                    0 <= t < out@.len() && j + 1 <= s < right@.len() implies out@[t] != right@[
                        s
                    ] by {
                    if t < before.len() {
                        assert(out@[t] == before[t]);
                    }
                }
                assert forall|s: int, t: int| 0 <= s < t < out@.len() implies out@[s] != out@[t] by {
                    if t == before.len() {
                        assert(before[s] != right@[j as int]);
                    } else {
                        assert(out@[s] == before[s] && out@[t] == before[t]);
                    }
                }
            }
            j += 1;
        }
    }
    proof {
        assert(a.skip(i as int) + b.skip(j as int) =~= Seq::<Record>::empty());
        assert(picked(all, out@) + Seq::<Record>::empty() =~= picked(all, out@));
    }
    out
}

/// The positions from `lo` up to `hi`, ordered by the keys of their lines,
/// positions of equal key in ascending order.
fn sort_range(lines: &Vec<Line>, lo: usize, hi: usize) -> (order: Vec<usize>)
    requires
        lo <= hi <= lines@.len(),
    ensures
        arranges(order@, lo as int, hi as int),
        picked(records(lines@), order@) == stable_sort(
            records(lines@).subrange(lo as int, hi as int),
        ),
    decreases hi - lo,
{
    let ghost all = records(lines@);
    let ghost part = all.subrange(lo as int, hi as int);
    if hi - lo <= 1 {
        let mut order: Vec<usize> = Vec::new();
        if lo < hi {
            order.push(lo);
            proof {
                assert(part.drop_last() =~= Seq::<Record>::empty());
                reveal_with_fuel(stable_sort, 2);
                assert(stable_sort(part) =~= seq![all[lo as int]]);
            }
        }
        assert(picked(all, order@) =~= stable_sort(part));
        order
    } else {
        let mid = lo + (hi - lo) / 2;
        let left = sort_range(lines, lo, mid);
        let right = sort_range(lines, mid, hi);
        proof {
            let first = all.subrange(lo as int, mid as int);
            let second = all.subrange(mid as int, hi as int);
            lemma_sort_ordered(first);
            lemma_sort_ordered(second);
            lemma_sort_of_sorted_parts(first, second);
            assert(first + second =~= part);
        }
        merge_positions(lines, &left, &right, Ghost(lo as int), Ghost(mid as int), Ghost(hi as int))
    }
}

/// The positions of `lines` in sorted order: keys ascend, and positions of
/// equal key ascend.
pub fn sorted_positions(lines: &Vec<Line>) -> (order: Vec<usize>)
    ensures
        arranges(order@, 0, lines@.len() as int),
        picked(records(lines@), order@) == stable_sort(records(lines@)),
{
    let order = sort_range(lines, 0, lines.len());
    proof {
        assert(records(lines@).subrange(0, lines@.len() as int) =~= records(lines@));
    }
    order
}

/// The slot holds a line of value `record`.
spec fn holds(slot: Option<Line>, record: Record) -> bool {
    slot matches Some(line) && line@ == record
}

/// Sorts `lines` by key, lines of equal key in the order in which they stand.
pub fn sort_by_key(lines: Vec<Line>) -> (sorted: Vec<Line>)
    ensures
        records(sorted@) == stable_sort(records(lines@)),
{
    let order = sorted_positions(&lines);
    let ghost all = records(lines@);
    let n = lines.len();
    let mut rest = lines;
    let mut slots: Vec<Option<Line>> = Vec::new();
    while rest.len() > 0
        invariant
            rest@.len() <= n,
            n == all.len(),
            slots@.len() == n - rest@.len(),
            forall|t: int| 0 <= t < rest@.len() ==> (#[trigger] rest@[t])@ == all[t],
            forall|t: int|
                0 <= t < slots@.len() ==> holds(#[trigger] slots@[t], all[n - 1 - t]),
        decreases rest@.len(),
    {
        let last = rest.pop();
        slots.push(last);
    }
    let mut sorted: Vec<Line> = Vec::new();
    let mut i: usize = 0;
    while i < n
        invariant
            i <= n,
            n == all.len(),
            slots@.len() == n,
            arranges(order@, 0, n as int),
            sorted@.len() == i,
            forall|t: int| 0 <= t < i ==> (#[trigger] sorted@[t])@ == all[order@[t] as int],
            forall|p: int|
                0 <= p < n ==> if exists|t: int| 0 <= t < i && order@[t] == p {
                    (#[trigger] slots@[n - 1 - p]) is None
                } else {
                    holds(slots@[n - 1 - p], all[p])
                },
        decreases n - i,
    {
        let p = order[i];
        let ghost before = slots@;
        let mut taken: Option<Line> = None;
        std::mem::swap(&mut slots[n - 1 - p], &mut taken);
        proof {
            assert(!exists|t: int| 0 <= t < i && order@[t] == p);
            assert(before[n - 1 - p] is Some);
            assert forall|q: int| 0 <= q < n implies if exists|t: int|
                0 <= t < i + 1 && order@[t] == q {
                (#[trigger] slots@[n - 1 - q]) is None
            } else {
                holds(slots@[n - 1 - q], all[q])
            } by {
                if q == p {
                    assert(order@[i as int] == q);
                } else {
                    assert(slots@[n - 1 - q] == before[n - 1 - q]);
                    if exists|t: int| 0 <= t < i + 1 && order@[t] == q {
                        let t = choose|t: int| 0 <= t < i + 1 && order@[t] == q;
                        assert(t < i);
                    }
                }
            }
        }
        match taken {
            Some(line) => {
                sorted.push(line);
            },
            None => {
                proof {
                    assert(false);
                }
                return sorted;
            },
        }
        i += 1;
    }
    proof {
        assert(records(sorted@) =~= picked(all, order@));
    }
    sorted
}

} // verus!
