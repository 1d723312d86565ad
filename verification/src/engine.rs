//! The sort engine: fills a buffer of bounded size, sorts and spills it when
//! it is full and more input arrives, and merges the spilled runs with the
//! last buffer at the end.
//!
//! The engine itself touches no storage. [`ChunkSorter::push`] hands each
//! spilled run to its caller as the bytes of a chunk store, and the caller
//! keeps them where it sees fit. [`sort_lines`] keeps them in memory.

use crate::chunk::{
    all_terminator_free, decode_all, decode_chunk, encode_all, encode_chunk,
    lemma_decode_all_encode_all,
};
use crate::merge::{concat, lemma_concat_push, lemma_merge_sorts, merge, merge_runs, runs_of};
use crate::order::{
    lemma_sort_contains, lemma_sort_len, lemma_sort_ordered, lemma_sort_stable,
    lemma_sort_unique, lemma_with_key_concat, ordered, stable_sort, with_key,
};
use crate::record::{records, terminator_free, DecodeError, Line, Record};
use crate::sorting::sort_by_key;
use vstd::prelude::*;

verus! {

/// The number of records that a buffer holds at most: the item budget, but
/// never less than one.
pub open spec fn capacity(item_budget: nat) -> nat {
    if item_budget == 0 {
        1
    } else {
        item_budget
    }
}

/// The engine after it has taken in `lines`: the runs it spilled, each in
/// arrival order, and the records still in its buffer. A full buffer is
/// spilled when the next record arrives, not before.
pub open spec fn fill(lines: Seq<Record>, cap: nat) -> (Seq<Seq<Record>>, Seq<Record>)
    decreases lines.len(),
{
    if lines.len() == 0 {
        (Seq::empty(), Seq::empty())
    } else {
        let (spilled, buffer) = fill(lines.drop_last(), cap);
        if buffer.len() >= cap {
            (spilled.push(buffer), seq![lines.last()])
        } else {
            (spilled, buffer.push(lines.last()))
        }
    }
}

/// The runs read back from the chunk stores that hold the sorted forms of
/// `spilled`, or the failure of the first store that cannot be read.
pub open spec fn reload(spilled: Seq<Seq<Record>>) -> Result<Seq<Seq<Record>>, DecodeError>
    decreases spilled.len(),
{
    if spilled.len() == 0 {
        Ok(Seq::empty())
    } else {
        match reload(spilled.drop_last()) {
            Ok(runs) => match decode_all(encode_all(stable_sort(spilled.last()))) {
                Ok(run) => Ok(runs.push(run)),
                Err(e) => Err(e),
            },
            Err(e) => Err(e),
        }
    }
}

/// What the engine gives for `lines`: their sorted form straight from the
/// buffer if nothing was spilled, else the merge of the runs read back from
/// the chunk stores and of the sorted last buffer.
pub open spec fn sorted_output(lines: Seq<Record>, item_budget: nat) -> Result<
    Seq<Record>,
    DecodeError,
> {
    let (spilled, buffer) = fill(lines, capacity(item_budget));
    if spilled.len() == 0 {
        Ok(stable_sort(buffer))
    } else {
        match reload(spilled) {
            Ok(runs) => Ok(merge(runs.push(stable_sort(buffer)))),
            Err(e) => Err(e),
        }
    }
}

/// Every record that is spilled can be read back from its frame. Records
/// that stay in the last buffer are never written, so their texts do not
/// matter here.
pub open spec fn spills_readable(lines: Seq<Record>, item_budget: nat) -> bool {
    forall|j: int|
        0 <= j < fill(lines, capacity(item_budget)).0.len() ==> all_terminator_free(
            #[trigger] fill(lines, capacity(item_budget)).0[j],
        )
}

/// How a run of the engine ended.
#[derive(Debug, PartialEq, Eq)]
pub enum Finish {
    /// Nothing was spilled: these are all the records, sorted.
    InMemory(Vec<Line>),
    /// Runs were spilled: this is the sorted last run, to be merged with them.
    LastRun(Vec<Line>),
}

/// The filling half of the engine.
pub struct ChunkSorter {
    item_budget: usize,
    buffer: Vec<Line>,
    spilled: bool,
}

impl ChunkSorter {
    #[verifier::type_invariant]
    spec fn within_budget(self) -> bool {
        self.buffer@.len() <= capacity(self.item_budget as nat)
    }

    /// The item budget the engine was made with.
    pub closed spec fn budget(&self) -> nat {
        self.item_budget as nat
    }

    /// The records in the buffer, in arrival order.
    pub closed spec fn buffered(&self) -> Seq<Record> {
        records(self.buffer@)
    }

    /// Whether a run has been spilled.
    pub closed spec fn has_spilled(&self) -> bool {
        self.spilled
    }

    /// An engine with an empty buffer.
    pub fn new(item_budget: usize) -> (sorter: ChunkSorter)
        ensures
            sorter.budget() == item_budget,
            sorter.buffered() == Seq::<Record>::empty(),
            !sorter.has_spilled(),
    {
        ChunkSorter { item_budget, buffer: Vec::new(), spilled: false }
    }

    /// Takes in one record. If the buffer is full, its records are sorted and
    /// returned as the bytes of a chunk store, and the buffer starts anew
    /// with `line`. The buffer never holds more than `capacity` records.
    pub fn push(&mut self, line: Line) -> (store: Option<Vec<u8>>)
        ensures
            final(self).budget() == old(self).budget(),
            final(self).buffered().len() <= capacity(old(self).budget()),
            old(self).buffered().len() < capacity(old(self).budget()) ==> {
                &&& store is None
                &&& final(self).buffered() == old(self).buffered().push(line@)
                &&& final(self).has_spilled() == old(self).has_spilled()
            },
            old(self).buffered().len() >= capacity(old(self).budget()) ==> {
                &&& store matches Some(bytes) && bytes@ == encode_all(
                    stable_sort(old(self).buffered()),
                )
                &&& final(self).buffered() == seq![line@]
                &&& final(self).has_spilled()
            },
    {
        proof {
            use_type_invariant(&*self);
        }
        let mut held: Vec<Line> = Vec::new();
        std::mem::swap(&mut self.buffer, &mut held);
        if held.len() >= 1 && held.len() >= self.item_budget {
            let run = sort_by_key(held);
            let store = encode_chunk(&run);
            let mut fresh: Vec<Line> = Vec::new();
            fresh.push(line);
            assert(records(fresh@) =~= seq![line@]);
            self.buffer = fresh;
            self.spilled = true;
            Some(store)
        } else {
            held.push(line);
            assert(records(held@) =~= records(old(self).buffer@).push(line@));
            self.buffer = held;
            None
        }
    }

    /// Ends the run: sorts what is in the buffer and says whether it is the
    /// whole output or the last of several runs.
    pub fn finish(self) -> (end: Finish)
        ensures
            match end {
                Finish::InMemory(lines) => !self.has_spilled() && records(lines@) == stable_sort(
                    self.buffered(),
                ),
                Finish::LastRun(lines) => self.has_spilled() && records(lines@) == stable_sort(
                    self.buffered(),
                ),
            },
    {
        let buffer = sort_by_key(self.buffer);
        if self.spilled {
            Finish::LastRun(buffer)
        } else {
            Finish::InMemory(buffer)
        }
    }
}

/// A failure in a leading part of the spilled runs is the failure of the whole.
pub proof fn lemma_reload_failure(spilled: Seq<Seq<Record>>, n: int)
    requires
        0 <= n <= spilled.len(),
        reload(spilled.take(n)) is Err,
    ensures
        reload(spilled) == reload(spilled.take(n)),
    decreases spilled.len() - n,
{
    if n < spilled.len() {
        assert(spilled.take(n + 1).drop_last() =~= spilled.take(n));
        lemma_reload_failure(spilled, n + 1);
    } else {
        assert(spilled.take(n) =~= spilled);
    }
}

/// Sorts `lines` by key, ties in arrival order, with a buffer of at most
/// `capacity(item_budget)` records. Runs that do not fit are written to chunk
/// stores in memory and read back for the merge.
///
/// Where no spilled text holds a terminator byte, the result is the sorted
/// form of `lines`. A spilled text with a terminator byte corrupts its chunk
/// store: the run read back differs from the run written, or cannot be read
/// at all, and the result is then what [`sorted_output`] says.
pub fn sort_lines(lines: &Vec<Line>, item_budget: usize) -> (r: Result<Vec<Line>, DecodeError>)
    ensures
        match sorted_output(records(lines@), item_budget as nat) {
            Ok(out) => r matches Ok(sorted) && records(sorted@) == out,
            Err(e) => r matches Err(failure) && failure == e,
        },
        spills_readable(records(lines@), item_budget as nat) ==> (r matches Ok(sorted) && records(
            sorted@,
        ) == stable_sort(records(lines@))),
{
    let ghost all = records(lines@);
    let ghost cap = capacity(item_budget as nat);
    proof {
        if spills_readable(all, item_budget as nat) {
            lemma_spilling_is_transparent(all, item_budget as nat);
        }
    }
    let mut sorter = ChunkSorter::new(item_budget);
    let mut stores: Vec<Vec<u8>> = Vec::new();
    let mut i: usize = 0;
    proof {
        assert(all.take(0) =~= Seq::<Record>::empty());
    }
    while i < lines.len()
        invariant
            i <= lines.len(),
            all == records(lines@),
            cap == capacity(item_budget as nat),
            sorter.budget() == item_budget,
            sorter.buffered() == fill(all.take(i as int), cap).1,
            sorter.has_spilled() == (fill(all.take(i as int), cap).0.len() > 0),
            stores@.len() == fill(all.take(i as int), cap).0.len(),
            forall|j: int|
                0 <= j < stores@.len() ==> (#[trigger] stores@[j])@ == encode_all(
                    stable_sort(fill(all.take(i as int), cap).0[j]),
                ),
        decreases lines.len() - i,
    {
        proof {
            assert(all.take(i + 1).drop_last() =~= all.take(i as int));
            assert(all.take(i + 1).last() == lines@[i as int]@);
        }
        match sorter.push(lines[i].clone()) {
            Some(store) => {
                stores.push(store);
            },
            None => {},
        }
        i += 1;
    }
    proof {
        assert(all.take(i as int) =~= all);
    }
    let ghost spilled = fill(all, cap).0;
    match sorter.finish() {
        Finish::InMemory(sorted) => Ok(sorted),
        Finish::LastRun(last) => {
            let mut runs: Vec<Vec<Line>> = Vec::new();
            let mut j: usize = 0;
            proof {
                assert(spilled.take(0) =~= Seq::<Seq<Record>>::empty());
                assert(runs_of(runs@) =~= Seq::<Seq<Record>>::empty());
            }
            while j < stores.len()
                invariant
                    j <= stores.len(),
                    spilled == fill(records(lines@), capacity(item_budget as nat)).0,
                    stores@.len() == spilled.len(),
                    forall|t: int|
                        0 <= t < stores@.len() ==> (#[trigger] stores@[t])@ == encode_all(
                            stable_sort(spilled[t]),
                        ),
                    reload(spilled.take(j as int)) == Ok::<Seq<Seq<Record>>, DecodeError>(
                        runs_of(runs@),
                    ),
                decreases stores.len() - j,
            {
                proof {
                    assert(spilled.take(j + 1).drop_last() =~= spilled.take(j as int));
                    assert(spilled.take(j + 1).last() == spilled[j as int]);
                }
                match decode_chunk(stores[j].as_slice()) {
                    Ok(run) => {
                        let ghost before = runs_of(runs@);
                        runs.push(run);
                        proof {
                            assert(runs_of(runs@) =~= before.push(records(run@)));
                        }
                    },
                    Err(e) => {
                        proof {
                            assert(stores@[j as int]@ == encode_all(
                                stable_sort(spilled[j as int]),
                            ));
                            assert(reload(spilled.take(j + 1)) == Err::<
                                Seq<Seq<Record>>,
                                DecodeError,
                            >(e));
                            lemma_reload_failure(spilled, j + 1);
                            assert(reload(spilled) == Err::<Seq<Seq<Record>>, DecodeError>(e));
                            if spills_readable(records(lines@), item_budget as nat) {
                                lemma_spilling_is_transparent(
                                    records(lines@),
                                    item_budget as nat,
                                );
                            }
                        }
                        return Err(e);
                    },
                }
                j += 1;
            }
            proof {
                assert(spilled.take(j as int) =~= spilled);
            }
            let ghost before = runs_of(runs@);
            runs.push(last);
            proof {
                assert(runs_of(runs@) =~= before.push(records(last@)));
            }
            Ok(merge_runs(&runs))
        },
    }
}

/// The spilled runs and the buffer are the input cut into consecutive
/// pieces: every spilled run is exactly `cap` records long, and the buffer
/// holds between one and `cap` records unless there was no input.
pub proof fn lemma_fill_partition(lines: Seq<Record>, cap: nat)
    requires
        cap >= 1,
    ensures
        concat(fill(lines, cap).0) + fill(lines, cap).1 == lines,
        forall|j: int| 0 <= j < fill(lines, cap).0.len() ==> (#[trigger] fill(lines, cap).0[j]).len() == cap,
        fill(lines, cap).1.len() <= cap,
        lines.len() > 0 ==> fill(lines, cap).1.len() >= 1,
        lines.len() == 0 ==> fill(lines, cap).0.len() == 0,
    decreases lines.len(),
{
    if lines.len() == 0 {
        assert(concat(fill(lines, cap).0) + fill(lines, cap).1 =~= lines);
    } else {
        let front = lines.drop_last();
        lemma_fill_partition(front, cap);
        let (spilled, buffer) = fill(front, cap);
        if buffer.len() >= cap {
            lemma_concat_push(spilled, buffer);
        }
        assert(concat(fill(lines, cap).0) + fill(lines, cap).1 =~= front.push(lines.last()));
        assert(front.push(lines.last()) =~= lines);
    }
}

/// Cutting the input into runs keeps every record readable.
pub proof fn lemma_fill_terminator_free(lines: Seq<Record>, cap: nat)
    requires
        all_terminator_free(lines),
    ensures
        all_terminator_free(fill(lines, cap).1),
        forall|j: int|
            0 <= j < fill(lines, cap).0.len() ==> all_terminator_free(
                #[trigger] fill(lines, cap).0[j],
            ),
    decreases lines.len(),
{
    if lines.len() != 0 {
        let front = lines.drop_last();
        assert(all_terminator_free(front)) by {
            assert forall|i: int| 0 <= i < front.len() implies terminator_free(
                #[trigger] front[i],
            ) by {
                assert(front[i] == lines[i]);
            }
        }
        lemma_fill_terminator_free(front, cap);
        assert(terminator_free(lines[lines.len() - 1]));
    }
}

/// Sorting keeps every record readable.
pub proof fn lemma_sort_terminator_free(run: Seq<Record>)
    requires
        all_terminator_free(run),
    ensures
        all_terminator_free(stable_sort(run)),
{
    lemma_sort_contains(run);
    let sorted = stable_sort(run);
    assert forall|i: int| 0 <= i < sorted.len() implies terminator_free(
        #[trigger] sorted[i],
    ) by {
        assert(run.contains(sorted[i]));
        let j = choose|j: int| 0 <= j < run.len() && run[j] == sorted[i];
        assert(terminator_free(run[j]));
    }
}

/// Readable runs come back from their chunk stores sorted and complete.
pub proof fn lemma_reload_sorted(spilled: Seq<Seq<Record>>)
    requires
        forall|j: int| 0 <= j < spilled.len() ==> all_terminator_free(#[trigger] spilled[j]),
    ensures
        reload(spilled) matches Ok(runs) && runs.len() == spilled.len() && forall|j: int|
            0 <= j < spilled.len() ==> #[trigger] runs[j] == stable_sort(spilled[j]),
    decreases spilled.len(),
{
    if spilled.len() != 0 {
        let front = spilled.drop_last();
        assert forall|j: int| 0 <= j < front.len() implies all_terminator_free(
            #[trigger] front[j],
        ) by {
            assert(front[j] == spilled[j]);
        }
        lemma_reload_sorted(front);
        assert(all_terminator_free(spilled[spilled.len() - 1]));
        lemma_sort_terminator_free(spilled.last());
        lemma_decode_all_encode_all(stable_sort(spilled.last()));
    }
}

/// Runs that agree, one by one, on the records of key `k` agree on them when
/// joined.
pub proof fn lemma_with_key_concat_runs(a: Seq<Seq<Record>>, b: Seq<Seq<Record>>, k: u32)
    requires
        a.len() == b.len(),
        forall|j: int| 0 <= j < a.len() ==> with_key(#[trigger] a[j], k) == with_key(b[j], k),
    ensures
        with_key(concat(a), k) == with_key(concat(b), k),
    decreases a.len(),
{
    if a.len() != 0 {
        let a0 = a.drop_last();
        let b0 = b.drop_last();
        assert forall|j: int| 0 <= j < a0.len() implies with_key(#[trigger] a0[j], k) == with_key(
            b0[j],
            k,
        ) by {
            assert(a0[j] == a[j] && b0[j] == b[j]);
        }
        lemma_with_key_concat_runs(a0, b0, k);
        lemma_with_key_concat(concat(a0), a.last(), k);
        lemma_with_key_concat(concat(b0), b.last(), k);
        assert(with_key(a[a.len() - 1], k) == with_key(b[a.len() - 1], k));
    }
}

/// Input without a terminator byte in any text is readable wherever the
/// engine cuts it.
pub proof fn lemma_terminator_free_spills(lines: Seq<Record>, item_budget: nat)
    requires
        all_terminator_free(lines),
    ensures
        spills_readable(lines, item_budget),
{
    lemma_fill_terminator_free(lines, capacity(item_budget));
}

/// Spilling does not change the result: whatever the item budget, the engine
/// gives the sorted form of its input, as a sort wholly in memory would,
/// provided no spilled text holds a terminator byte.
pub proof fn lemma_spilling_is_transparent(lines: Seq<Record>, item_budget: nat)
    requires
        spills_readable(lines, item_budget),
    ensures
        sorted_output(lines, item_budget) == Ok::<Seq<Record>, DecodeError>(stable_sort(lines)),
{
    let cap = capacity(item_budget);
    let (spilled, buffer) = fill(lines, cap);
    lemma_fill_partition(lines, cap);
    if spilled.len() == 0 {
        assert(concat(spilled) =~= Seq::<Record>::empty());
        assert(buffer =~= lines);
    } else {
        lemma_reload_sorted(spilled);
        let runs = reload(spilled)->Ok_0;
        let sorted_runs = runs.push(stable_sort(buffer));
        let raw_runs = spilled.push(buffer);
        assert forall|j: int| 0 <= j < sorted_runs.len() implies ordered(
            #[trigger] sorted_runs[j],
        ) by {
            if j < spilled.len() {
                assert(sorted_runs[j] == runs[j]);
                lemma_sort_ordered(spilled[j]);
            } else {
                lemma_sort_ordered(buffer);
            }
        }
        lemma_merge_sorts(sorted_runs);
        let joined = concat(sorted_runs);
        let t = stable_sort(joined);
        lemma_sort_ordered(joined);
        lemma_concat_push(spilled, buffer);
        assert(concat(raw_runs) == lines);
        assert forall|k: u32| #[trigger] with_key(t, k) == with_key(lines, k) by {
            lemma_sort_stable(joined, k);
            assert forall|j: int| 0 <= j < sorted_runs.len() implies with_key(
                #[trigger] sorted_runs[j],
                k,
            ) == with_key(raw_runs[j], k) by {
                if j < spilled.len() {
                    assert(sorted_runs[j] == runs[j]);
                    assert(raw_runs[j] == spilled[j]);
                    lemma_sort_stable(spilled[j], k);
                } else {
                    lemma_sort_stable(buffer, k);
                }
            }
            lemma_with_key_concat_runs(sorted_runs, raw_runs, k);
        }
        lemma_sort_unique(lines, t);
    }
}

/// The output has as many records as the input, provided every spilled
/// record can be read back.
pub proof fn lemma_output_count(lines: Seq<Record>, item_budget: nat)
    requires
        spills_readable(lines, item_budget),
    ensures
        sorted_output(lines, item_budget) matches Ok(out) && out.len() == lines.len(),
{
    lemma_spilling_is_transparent(lines, item_budget);
    lemma_sort_len(lines);
}

/// In the output keys never decrease from one position to a later one,
/// provided every spilled record can be read back.
pub proof fn lemma_output_ordered(lines: Seq<Record>, item_budget: nat)
    requires
        spills_readable(lines, item_budget),
    ensures
        sorted_output(lines, item_budget) matches Ok(out) && forall|i: int, j: int|
            0 <= i < j < out.len() ==> out[i].key <= out[j].key,
{
    lemma_spilling_is_transparent(lines, item_budget);
    lemma_sort_ordered(lines);
}

/// The output is stable: for each key, the records that carry it come out
/// in the order in which they arrived, provided every spilled record can be
/// read back.
pub proof fn lemma_output_stable(lines: Seq<Record>, item_budget: nat, k: u32)
    requires
        spills_readable(lines, item_budget),
    ensures
        sorted_output(lines, item_budget) matches Ok(out) && with_key(out, k) == with_key(lines, k),
{
    lemma_spilling_is_transparent(lines, item_budget);
    lemma_sort_stable(lines, k);
}

} // verus!
