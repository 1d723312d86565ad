//! From the keys assigned line by line to the dense order that the sort
//! reads, and from texts and order to records.

use crate::record::{Line, Record};
use std::collections::HashMap;
use vstd::prelude::*;

verus! {

broadcast use vstd::std_specs::hash::group_hash_axioms;

/// The key assigned to each line, by the line's ordinal (counted from 0).
pub struct LineMap {
    keys: HashMap<u64, u32>,
}

impl View for LineMap {
    type V = Map<u64, u32>;

    closed spec fn view(&self) -> Map<u64, u32> {
        self.keys@
    }
}

/// Why no line order could be made.
#[derive(Debug, Clone, Copy, PartialEq, Eq, Structural)]
pub enum OrderError {
    /// The map does not hold as many entries as there are lines.
    CountMismatch,
    /// The map holds no key for the line of this ordinal.
    MissingLine(usize),
}

/// The map holds a key for every ordinal below `n`.
pub open spec fn covers(map: Map<u64, u32>, n: nat) -> bool {
    forall|i: nat| i < n ==> map.dom().contains(#[trigger] (i as u64))
}

impl LineMap {
    /// A map without entries.
    pub fn new() -> (map: LineMap)
        ensures
            map@ == Map::<u64, u32>::empty(),
    {
        LineMap { keys: HashMap::new() }
    }

    /// Records `key` as the key of line `ordinal`, in place of any key
    /// recorded for it before.
    pub fn insert(&mut self, ordinal: u64, key: u32)
        ensures
            final(self)@ == old(self)@.insert(ordinal, key),
    {
        self.keys.insert(ordinal, key);
    }

    /// The key recorded for line `ordinal`.
    pub fn get(&self, ordinal: u64) -> (key: Option<u32>)
        ensures
            key == if self@.dom().contains(ordinal) {
                Some(self@[ordinal])
            } else {
                None
            },
    {
        match self.keys.get(&ordinal) {
            Some(key) => Some(*key),
            None => None,
        }
    }

    /// The number of lines that have a key.
    pub fn len(&self) -> (n: usize)
        ensures
            n == self@.len(),
    {
        self.keys.len()
    }
}

/// The pass that gives every line its key. Lines are taken strictly in
/// order: the first key assigned is that of line 0, the next that of line 1.
/// How a key is derived from a line is the caller's business.
pub struct KeyAssigner {
    count: usize,
    map: LineMap,
}

impl KeyAssigner {
    #[verifier::type_invariant]
    spec fn dense(self) -> bool {
        &&& self.map@.dom().finite()
        &&& self.map@.len() == self.count
        &&& covers(self.map@, self.count as nat)
    }

    /// The number of lines that have been given a key.
    pub closed spec fn line_count(&self) -> nat {
        self.count as nat
    }

    /// The keys given so far.
    pub closed spec fn assigned(&self) -> Map<u64, u32> {
        self.map@
    }

    /// An assigner that has seen no line.
    pub fn new() -> (assigner: KeyAssigner)
        ensures
            assigner.line_count() == 0,
            assigner.assigned() == Map::<u64, u32>::empty(),
    {
        KeyAssigner { count: 0, map: LineMap::new() }
    }

    /// Gives the next line the key `key`. Returns `false`, and changes
    /// nothing, if the number of lines has reached `usize::MAX`.
    pub fn assign(&mut self, key: u32) -> (done: bool)
        ensures
            done == (old(self).line_count() < usize::MAX),
            done ==> {
                &&& final(self).line_count() == old(self).line_count() + 1
                &&& final(self).assigned() == old(self).assigned().insert(
                    old(self).line_count() as u64,
                    key,
                )
            },
            !done ==> {
                &&& final(self).line_count() == old(self).line_count()
                &&& final(self).assigned() == old(self).assigned()
            },
    {
        proof {
            use_type_invariant(&*self);
        }
        if self.count == usize::MAX {
            return false;
        }
        let mut taken = KeyAssigner::new();
        std::mem::swap(self, &mut taken);
        let count = taken.count;
        let mut map = taken.map;
        let ghost before = map@;
        proof {
            if before.dom().contains(count as u64) {
                lemma_covered_len(before, count as nat, count as u64);
            }
        }
        map.insert(count as u64, key);
        proof {
            assert forall|i: nat| i < count + 1 implies map@.dom().contains(
                #[trigger] (i as u64),
            ) by {
                if i < count {
                    assert(before.dom().contains(i as u64));
                }
            }
        }
        *self = KeyAssigner { count: count + 1, map };
        true
    }

    /// Ends the pass: the number of lines and their keys. The map holds
    /// exactly one key for every line, so a line order can be made of it.
    pub fn finish(self) -> (r: (usize, LineMap))
        ensures
            r.0 == self.line_count(),
            r.1@ == self.assigned(),
            r.1@.len() == r.0,
            covers(r.1@, r.0 as nat),
    {
        proof {
            use_type_invariant(&self);
        }
        (self.count, self.map)
    }
}

/// A finite map that holds a key for every ordinal below `n` and for one
/// ordinal more has more than `n` entries.
proof fn lemma_covered_len(map: Map<u64, u32>, n: nat, extra: u64)
    requires
        map.dom().finite(),
        covers(map, n),
        n <= extra,
        map.dom().contains(extra),
        n <= usize::MAX,
    ensures
        map.len() > n,
    decreases n,
{
    if n == 0 {
        assert(map.dom().len() > 0) by {
            if map.dom().len() == 0 {
                assert(map.dom() =~= Set::<u64>::empty());
            }
        }
    } else {
        let last = (n - 1) as nat;
        assert(map.dom().contains(last as u64));
        let rest = map.remove(last as u64);
        assert forall|i: nat| i < last implies rest.dom().contains(#[trigger] (i as u64)) by {
            assert(map.dom().contains(i as u64));
        }
        lemma_covered_len(rest, last, extra);
    }
}

/// Lays the keys of `line_map` out by ordinal.
///
/// Succeeds exactly when the map holds `line_cnt` entries and among them one
/// for every ordinal below `line_cnt`; the order then has `line_cnt` keys, the
/// key of line `i` at position `i`. A missing line is reported by the least
/// ordinal that has no key.
pub fn make_line_order(line_cnt: usize, line_map: &LineMap) -> (r: Result<Vec<u32>, OrderError>)
    ensures
        match r {
            Ok(order) => {
                &&& line_map@.len() == line_cnt
                &&& covers(line_map@, line_cnt as nat)
                &&& order@.len() == line_cnt
                &&& forall|i: int| 0 <= i < line_cnt ==> order@[i] == line_map@[i as u64]
            },
            Err(OrderError::CountMismatch) => line_map@.len() != line_cnt,
            Err(OrderError::MissingLine(n)) => {
                &&& line_map@.len() == line_cnt
                &&& n < line_cnt
                &&& !line_map@.dom().contains(n as u64)
                &&& covers(line_map@, n as nat)
            },
        },
{
    if line_map.len() != line_cnt {
        return Err(OrderError::CountMismatch);
    }
    let mut order: Vec<u32> = Vec::new();
    let mut i: usize = 0;
    while i < line_cnt
        invariant
            i <= line_cnt,
            line_map@.len() == line_cnt,
            order@.len() == i,
            covers(line_map@, i as nat),
            forall|j: int| 0 <= j < i ==> order@[j] == line_map@[j as u64],
        decreases line_cnt - i,
    {
        match line_map.get(i as u64) {
            Some(key) => {
                order.push(key);
            },
            None => {
                return Err(OrderError::MissingLine(i));
            },
        }
        i += 1;
    }
    Ok(order)
}

/// The values of a list of texts.
pub open spec fn texts_of(texts: Seq<String>) -> Seq<Seq<char>> {
    texts.map_values(|text: String| text@)
}

/// Texts and keys paired position by position. It is meant for as many
/// keys as there are texts.
pub open spec fn paired(texts: Seq<Seq<char>>, order: Seq<u32>) -> Seq<Record> {
    Seq::new(texts.len(), |i: int| Record { key: order[i], text: texts[i] })
}

/// The record of line `ordinal`: its text with its key from the order. A
/// line for which the order holds no key is a mismatch between the order and
/// the lines.
pub fn tag_line(line_order: &Vec<u32>, ordinal: usize, text: String) -> (r: Result<
    Line,
    OrderError,
>)
    ensures
        match r {
            Ok(line) => ordinal < line_order@.len() && line@ == (Record {
                key: line_order@[ordinal as int],
                text: text@,
            }),
            Err(e) => ordinal >= line_order@.len() && e == OrderError::CountMismatch,
        },
{
    if ordinal < line_order.len() {
        Ok(Line(line_order[ordinal], text))
    } else {
        Err(OrderError::CountMismatch)
    }
}

/// Checks, once the last line has been tagged, that the order holds a key
/// for exactly the `line_cnt` lines that were read.
pub fn check_line_count(line_order: &Vec<u32>, line_cnt: usize) -> (r: Result<(), OrderError>)
    ensures
        match r {
            Ok(()) => line_cnt == line_order@.len(),
            Err(e) => line_cnt != line_order@.len() && e == OrderError::CountMismatch,
        },
{
    if line_cnt == line_order.len() {
        Ok(())
    } else {
        Err(OrderError::CountMismatch)
    }
}

/// Pairs each text with the key at its position. Fails if there are not as
/// many keys as texts.
pub fn pair_lines(texts: &Vec<String>, line_order: &Vec<u32>) -> (r: Result<Vec<Line>, OrderError>)
    ensures
        match r {
            Ok(lines) => texts@.len() == line_order@.len() && crate::record::records(lines@)
                == paired(texts_of(texts@), line_order@),
            Err(e) => texts@.len() != line_order@.len() && e == OrderError::CountMismatch,
        },
{
    if texts.len() != line_order.len() {
        return Err(OrderError::CountMismatch);
    }
    let mut lines: Vec<Line> = Vec::new();
    let mut i: usize = 0;
    while i < texts.len()
        invariant
            i <= texts.len(),
            texts@.len() == line_order@.len(),
            lines@.len() == i,
            forall|j: int|
                0 <= j < i ==> (#[trigger] lines@[j])@ == (Record {
                    key: line_order@[j],
                    text: texts@[j]@,
                }),
        decreases texts.len() - i,
    {
        lines.push(Line(line_order[i], texts[i].clone()));
        i += 1;
    }
    assert(crate::record::records(lines@) =~= paired(texts_of(texts@), line_order@));
    Ok(lines)
}

} // verus!
