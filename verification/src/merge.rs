//! Merging key-ordered runs into one key-ordered stream.
//!
//! The merge looks only at the first record of each run. It takes the record
//! with the least key, and among equal keys the one of the earliest run, which
//! keeps records of equal key in the order of their runs.

use crate::order::{keys_at_least, lemma_sort_least_first, ordered, stable_sort};
use crate::record::{records, Line, Record};
use vstd::prelude::*;

verus! {

/// The runs joined end to end.
pub open spec fn concat(runs: Seq<Seq<Record>>) -> Seq<Record>
    decreases runs.len(),
{
    if runs.len() == 0 {
        Seq::empty()
    } else {
        concat(runs.drop_last()) + runs.last()
    }
}

/// The first record of each run, where the run has one.
pub open spec fn heads_of(runs: Seq<Seq<Record>>) -> Seq<Option<Record>> {
    Seq::new(
        runs.len(),
        |i: int|
            if runs[i].len() > 0 {
                Some(runs[i][0])
            } else {
                None
            },
    )
}

/// Among the first `n` heads, the position of the one with the least key; of
/// several with that key, the lowest position. `None` if none of them holds a
/// record.
pub open spec fn least_among(heads: Seq<Option<Record>>, n: int) -> Option<int>
    decreases n,
{
    if n <= 0 {
        None
    } else {
        let before = least_among(heads, n - 1);
        match (heads[n - 1], before) {
            (None, _) => before,
            (Some(_), None) => Some(n - 1),
            (Some(r), Some(i)) => if r.key < heads[i].unwrap().key {
                Some(n - 1)
            } else {
                before
            },
        }
    }
}

/// The position of the head that the merge takes next.
pub open spec fn least_head(heads: Seq<Option<Record>>) -> Option<int> {
    least_among(heads, heads.len() as int)
}

/// The first `steps` records that merging `runs` gives.
pub open spec fn merge_steps(runs: Seq<Seq<Record>>, steps: nat) -> Seq<Record>
    decreases steps,
{
    if steps == 0 {
        Seq::empty()
    } else {
        match least_head(heads_of(runs)) {
            None => Seq::empty(),
            Some(i) => seq![runs[i][0]] + merge_steps(
                runs.update(i, runs[i].drop_first()),
                (steps - 1) as nat,
            ),
        }
    }
}

/// The stream that merging `runs` gives.
pub open spec fn merge(runs: Seq<Seq<Record>>) -> Seq<Record> {
    merge_steps(runs, concat(runs).len())
}

/// The head that `least_among` picks holds a record whose key is below the
/// key of every earlier head and not above the key of any later one.
pub proof fn lemma_least_among(heads: Seq<Option<Record>>, n: int)
    requires
        0 <= n <= heads.len(),
    ensures
        match least_among(heads, n) {
            None => forall|j: int| 0 <= j < n ==> heads[j] is None,
            Some(i) => {
                &&& 0 <= i < n
                &&& heads[i] is Some
                &&& forall|j: int|
                    0 <= j < i && heads[j] is Some ==> heads[j].unwrap().key
                        > heads[i].unwrap().key
                &&& forall|j: int|
                    i < j < n && heads[j] is Some ==> heads[j].unwrap().key
                        >= heads[i].unwrap().key
            },
        },
    decreases n,
{
    if n > 0 {
        lemma_least_among(heads, n - 1);
    }
}

/// The runs joined are the runs before `i` joined, run `i`, and the runs
/// behind it joined.
pub proof fn lemma_concat_split(runs: Seq<Seq<Record>>, i: int)
    requires
        0 <= i < runs.len(),
    ensures
        concat(runs) == concat(runs.take(i)) + runs[i] + concat(runs.skip(i + 1)),
    decreases runs.len(),
{
    let front = runs.drop_last();
    if i == runs.len() - 1 {
        assert(runs.take(i) =~= front);
        assert(runs.skip(i + 1) =~= Seq::<Seq<Record>>::empty());
        assert(concat(runs) =~= concat(runs.take(i)) + runs[i] + concat(runs.skip(i + 1)));
    } else {
        lemma_concat_split(front, i);
        assert(front.take(i) =~= runs.take(i));
        assert(runs.skip(i + 1).drop_last() =~= front.skip(i + 1));
        assert(runs.skip(i + 1).last() == runs.last());
        assert(concat(runs) =~= concat(runs.take(i)) + runs[i] + concat(runs.skip(i + 1)));
    }
}

/// Replacing run `i` replaces its stretch in the runs joined.
pub proof fn lemma_concat_update(runs: Seq<Seq<Record>>, i: int, run: Seq<Record>)
    requires
        0 <= i < runs.len(),
    ensures
        concat(runs.update(i, run)) == concat(runs.take(i)) + run + concat(runs.skip(i + 1)),
{
    let changed = runs.update(i, run);
    lemma_concat_split(changed, i);
    assert(changed.take(i) =~= runs.take(i));
    assert(changed.skip(i + 1) =~= runs.skip(i + 1));
}

/// A run added at the end comes last in the runs joined.
pub proof fn lemma_concat_push(runs: Seq<Seq<Record>>, run: Seq<Record>)
    ensures
        concat(runs.push(run)) == concat(runs) + run,
{
    assert(runs.push(run).drop_last() =~= runs);
}

/// A lower bound on the keys of every run bounds the keys of the runs joined.
pub proof fn lemma_concat_keys(runs: Seq<Seq<Record>>, bound: int)
    requires
        forall|j: int| 0 <= j < runs.len() ==> keys_at_least(#[trigger] runs[j], bound),
    ensures
        keys_at_least(concat(runs), bound),
    decreases runs.len(),
{
    if runs.len() != 0 {
        let front = runs.drop_last();
        assert forall|j: int| 0 <= j < front.len() implies keys_at_least(
            #[trigger] front[j],
            bound,
        ) by {
            assert(front[j] == runs[j]);
        }
        lemma_concat_keys(front, bound);
        assert(keys_at_least(runs[runs.len() - 1], bound));
    }
}

/// Merging key-ordered runs step by step gives the sorted form of the runs
/// joined, provided there are as many steps as records.
proof fn lemma_merge_steps_sorts(runs: Seq<Seq<Record>>, steps: nat)
    requires
        forall|j: int| 0 <= j < runs.len() ==> ordered(#[trigger] runs[j]),
        steps == concat(runs).len(),
    ensures
        merge_steps(runs, steps) == stable_sort(concat(runs)),
    decreases steps,
{
    let heads = heads_of(runs);
    lemma_least_among(heads, heads.len() as int);
    match least_head(heads) {
        None => {
            assert forall|j: int| 0 <= j < runs.len() implies keys_at_least(
                #[trigger] runs[j],
                u32::MAX + 1,
            ) by {
                assert(heads[j] is None);
            }
            lemma_concat_keys(runs, u32::MAX + 1);
            if concat(runs).len() > 0 {
                assert(concat(runs)[0].key >= u32::MAX + 1);
            }
            assert(concat(runs) =~= Seq::<Record>::empty());
        },
        Some(i) => {
            let x = runs[i][0];
            let rest = runs[i].drop_first();
            let later = runs.update(i, rest);
            let a = concat(runs.take(i));
            let c = concat(runs.skip(i + 1));
            let b = rest + c;
            lemma_concat_split(runs, i);
            lemma_concat_update(runs, i, rest);
            assert(runs[i] =~= seq![x] + rest);
            assert(concat(runs) =~= a + seq![x] + b);
            assert(concat(later) =~= a + b);
            assert(heads[i] == Some(x));
            assert forall|j: int| 0 <= j < runs.take(i).len() implies keys_at_least(
                #[trigger] runs.take(i)[j],
                x.key + 1,
            ) by {
                let run = runs[j];
                assert(runs.take(i)[j] == run);
                if run.len() > 0 {
                    assert(heads[j] == Some(run[0]));
                    assert forall|t: int| 0 <= t < run.len() implies #[trigger] run[t].key
                        >= x.key + 1 by {
                        if t > 0 {
                            assert(run[0].key <= run[t].key);
                        }
                    }
                }
            }
            lemma_concat_keys(runs.take(i), x.key + 1);
            assert forall|j: int| 0 <= j < runs.skip(i + 1).len() implies keys_at_least(
                #[trigger] runs.skip(i + 1)[j],
                x.key as int,
            ) by {
                let run = runs[i + 1 + j];
                assert(runs.skip(i + 1)[j] == run);
                if run.len() > 0 {
                    assert(heads[i + 1 + j] == Some(run[0]));
                    assert forall|t: int| 0 <= t < run.len() implies #[trigger] run[t].key
                        >= x.key by {
                        if t > 0 {
                            assert(run[0].key <= run[t].key);
                        }
                    }
                }
            }
            lemma_concat_keys(runs.skip(i + 1), x.key as int);
            assert(keys_at_least(b, x.key as int)) by {
                assert forall|t: int| 0 <= t < b.len() implies #[trigger] b[t].key >= x.key by {
                    if t < rest.len() {
                        assert(b[t] == runs[i][t + 1]);
                        assert(runs[i][0].key <= runs[i][t + 1].key);
                    } else {
                        assert(b[t] == c[t - rest.len()]);
                    }
                }
            }
            lemma_sort_least_first(a, x, b);
            assert forall|j: int| 0 <= j < later.len() implies ordered(#[trigger] later[j]) by {
                if j == i {
                    assert forall|s: int, t: int| 0 <= s < t < rest.len() implies rest[s].key
                        <= rest[t].key by {
                        assert(runs[i][s + 1].key <= runs[i][t + 1].key);
                    }
                } else {
                    assert(later[j] == runs[j]);
                }
            }
            lemma_merge_steps_sorts(later, (steps - 1) as nat);
        },
    }
}

/// Merging key-ordered runs gives the sorted form of the runs joined end to
/// end: the merge sorts, and it is stable across runs.
pub proof fn lemma_merge_sorts(runs: Seq<Seq<Record>>)
    requires
        forall|j: int| 0 <= j < runs.len() ==> ordered(#[trigger] runs[j]),
    ensures
        merge(runs) == stable_sort(concat(runs)),
{
    lemma_merge_steps_sorts(runs, concat(runs).len());
}

/// One step of the merge: the least head leaves its run and comes first.
pub proof fn lemma_merge_step(runs: Seq<Seq<Record>>)
    ensures
        match least_head(heads_of(runs)) {
            None => merge(runs) == Seq::<Record>::empty(),
            Some(i) => {
                &&& 0 <= i < runs.len()
                &&& runs[i].len() > 0
                &&& merge(runs) == seq![runs[i][0]] + merge(runs.update(i, runs[i].drop_first()))
                &&& concat(runs.update(i, runs[i].drop_first())).len() + 1 == concat(runs).len()
            },
        },
{
    let heads = heads_of(runs);
    lemma_least_among(heads, heads.len() as int);
    match least_head(heads) {
        None => {},
        Some(i) => {
            lemma_concat_split(runs, i);
            lemma_concat_update(runs, i, runs[i].drop_first());
        },
    }
}

/// The value of a head.
pub open spec fn value_of(head: Option<Line>) -> Option<Record> {
    match head {
        Some(line) => Some(line@),
        None => None,
    }
}

/// The values of a row of heads.
pub open spec fn head_values(heads: Seq<Option<Line>>) -> Seq<Option<Record>> {
    heads.map_values(|head: Option<Line>| value_of(head))
}

/// The values of a list of runs.
pub open spec fn runs_of(runs: Seq<Vec<Line>>) -> Seq<Seq<Record>> {
    runs.map_values(|run: Vec<Line>| records(run@))
}

/// What is left of each run from the given position on.
pub open spec fn remaining(runs: Seq<Vec<Line>>, from: Seq<usize>) -> Seq<Seq<Record>> {
    Seq::new(runs.len(), |i: int| records(runs[i]@).skip(from[i] as int))
}

/// The heads of the runs being merged: for each run the record that is next
/// in line, or nothing once the run is used up.
pub struct Merger {
    heads: Vec<Option<Line>>,
}

impl View for Merger {
    type V = Seq<Option<Record>>;

    closed spec fn view(&self) -> Seq<Option<Record>> {
        head_values(self.heads@)
    }
}

impl Merger {
    /// A merger over the given heads, one for each run.
    pub fn new(heads: Vec<Option<Line>>) -> (merger: Merger)
        ensures
            merger@ == head_values(heads@),
    {
        Merger { heads }
    }

    /// The run to take the next record from: the one whose head has the least
    /// key, the earliest such run on ties. `None` when every run is used up.
    pub fn select(&self) -> (next: Option<usize>)
        ensures
            match next {
                Some(i) => least_head(self@) == Some(i as int),
                None => least_head(self@) is None,
            },
    {
        let mut best: Option<usize> = None;
        let mut idx: usize = 0;
        while idx < self.heads.len()
            invariant
                idx <= self.heads.len(),
                match best {
                    Some(b) => least_among(self@, idx as int) == Some(b as int),
                    None => least_among(self@, idx as int) is None,
                },
            decreases self.heads.len() - idx,
        {
            proof {
                lemma_least_among(self@, idx as int);
            }
            match &self.heads[idx] {
                None => {},
                Some(line) => {
                    match best {
                        None => {
                            best = Some(idx);
                        },
                        Some(b) => {
                            let smaller = match &self.heads[b] {
                                Some(held) => line.0 < held.0,
                                None => false,
                            };
                            if smaller {
                                best = Some(idx);
                            }
                        },
                    }
                },
            }
            idx += 1;
        }
        best
    }

    /// Takes the head of `run` out and puts `head` in its place. Where `run`
    /// names no run, nothing changes and nothing is returned.
    pub fn replace_head(&mut self, run: usize, head: Option<Line>) -> (taken: Option<Line>)
        ensures
            run < old(self)@.len() ==> final(self)@ == old(self)@.update(
                run as int,
                value_of(head),
            ) && value_of(taken) == old(self)@[run as int],
            run >= old(self)@.len() ==> final(self)@ == old(self)@ && taken is None,
    {
        if run < self.heads.len() {
            let mut slot = head;
            std::mem::swap(&mut self.heads[run], &mut slot);
            assert(self@ =~= old(self)@.update(run as int, value_of(head)));
            slot
        } else {
            None
        }
    }
}

/// All runs are key-ordered.
pub open spec fn all_ordered(runs: Seq<Seq<Record>>) -> bool {
    forall|j: int| 0 <= j < runs.len() ==> ordered(#[trigger] runs[j])
}

/// Merges runs held in memory. Of key-ordered runs the result is the sorted
/// form of the runs joined end to end.
pub fn merge_runs(runs: &Vec<Vec<Line>>) -> (out: Vec<Line>)
    ensures
        records(out@) == merge(runs_of(runs@)),
        all_ordered(runs_of(runs@)) ==> records(out@) == stable_sort(concat(runs_of(runs@))),
{
    proof {
        if all_ordered(runs_of(runs@)) {
            lemma_merge_sorts(runs_of(runs@));
        }
    }
    let mut heads: Vec<Option<Line>> = Vec::new();
    let mut from: Vec<usize> = Vec::new();
    let mut i: usize = 0;
    while i < runs.len()
        invariant
            i <= runs.len(),
            heads.len() == i,
            from.len() == i,
            forall|j: int| 0 <= j < i ==> from[j] == 0,
            forall|j: int|
                0 <= j < i ==> value_of(#[trigger] heads[j]) == heads_of(runs_of(runs@))[j],
        decreases runs.len() - i,
    {
        if runs[i].len() > 0 {
            heads.push(Some(runs[i][0].clone()));
        } else {
            heads.push(None);
        }
        from.push(0);
        i += 1;
    }
    let mut merger = Merger::new(heads);
    let mut out: Vec<Line> = Vec::new();
    proof {
        assert(remaining(runs@, from@) =~~= runs_of(runs@));
        assert(merger@ =~= heads_of(remaining(runs@, from@)));
        assert(records(out@) =~= Seq::<Record>::empty());
    }
    loop
        invariant
            from.len() == runs.len(),
            forall|j: int| 0 <= j < runs.len() ==> from[j] <= runs[j].len(),
            merger@ == heads_of(remaining(runs@, from@)),
            records(out@) + merge(remaining(runs@, from@)) == merge(runs_of(runs@)),
        ensures
            records(out@) == merge(runs_of(runs@)),
        decreases concat(remaining(runs@, from@)).len(),
    {
        let ghost left = remaining(runs@, from@);
        proof {
            lemma_merge_step(left);
        }
        match merger.select() {
            None => {
                assert(records(out@) + Seq::<Record>::empty() =~= records(out@));
                break ;
            },
            Some(i) => {
                assert(left[i as int].len() > 0);
                let at = from[i] + 1;
                let refill = if at < runs[i].len() {
                    Some(runs[i][at].clone())
                } else {
                    None
                };
                from.set(i, at);
                let taken = merger.replace_head(i, refill);
                proof {
                    let later = remaining(runs@, from@);
                    assert(later =~~= left.update(i as int, left[i as int].drop_first()));
                    assert(merger@ =~= heads_of(later));
                }
                match taken {
                    Some(line) => {
                        let ghost before = records(out@);
                        out.push(line);
                        proof {
                            assert(line@ == left[i as int][0]);
                            assert(records(out@) =~= before + seq![left[i as int][0]]);
                            assert(records(out@) + merge(remaining(runs@, from@)) =~= before + (
                            seq![left[i as int][0]] + merge(remaining(runs@, from@))));
                        }
                    },
                    None => {},
                }
            },
        }
    }
    out
}

} // verus!
