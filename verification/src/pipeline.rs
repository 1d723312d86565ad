//! The whole run on values in memory: what to do for a command line, pairing
//! texts with their keys, sorting, and the bytes of the output.

use crate::engine::{sort_lines, sorted_output, spills_readable};
use crate::order::stable_sort;
use crate::record::{records, DecodeError, Line, Record, TERMINATOR};
use crate::resolve::{pair_lines, paired, texts_of, OrderError};
use vstd::prelude::*;
use vstd::string::StringExecFns;
use vstd::utf8::encode_utf8;

verus! {

/// The item budget of the program: a ceiling of 1 GiB of memory at an assumed
/// 128 bytes to the record.
pub const ITEM_BUDGET: usize = 8388608;

/// What a command line asks for.
#[derive(Debug, PartialEq, Eq)]
pub enum Plan {
    /// No file was named: print this usage message and stop.
    Usage(String),
    /// Sort the file at this path.
    Sort(String),
}

/// The usage message for a program called `program`.
pub open spec fn usage_text(program: Seq<char>) -> Seq<char> {
    "Usage: "@ + program + " FILE"@
}

/// Reads the command line, the program's name first. With the name alone the
/// plan is the usage message; otherwise it is to sort the file named first.
/// An empty command line gives no plan.
pub fn plan(args: &Vec<String>) -> (p: Option<Plan>)
    ensures
        match p {
            None => args@.len() == 0,
            Some(Plan::Usage(message)) => args@.len() == 1 && message@ == usage_text(args@[0]@),
            Some(Plan::Sort(path)) => args@.len() >= 2 && path@ == args@[1]@,
        },
{
    if args.len() == 0 {
        None
    } else if args.len() == 1 {
        let message = String::from_str("Usage: ").concat(args[0].as_str()).concat(" FILE");
        Some(Plan::Usage(message))
    } else {
        Some(Plan::Sort(args[1].clone()))
    }
}

/// The texts of a run of records.
pub open spec fn text_values(run: Seq<Record>) -> Seq<Seq<char>> {
    run.map_values(|record: Record| record.text)
}

/// Why texts could not be sorted.
#[derive(Debug, Clone, Copy, PartialEq, Eq, Structural)]
pub enum SortError {
    /// There are not as many keys as texts.
    Order(OrderError),
    /// A chunk store could not be read back.
    Decode(DecodeError),
}

/// Sorts texts by the keys that `line_order` gives them, position by
/// position, and returns the texts in output order. Fails if there are not
/// as many keys as texts.
pub fn sort_texts(texts: &Vec<String>, line_order: &Vec<u32>, item_budget: usize) -> (r: Result<
    Vec<String>,
    SortError,
>)
    ensures
        texts@.len() != line_order@.len() ==> r == Err::<Vec<String>, SortError>(
            SortError::Order(OrderError::CountMismatch),
        ),
        texts@.len() == line_order@.len() ==> match sorted_output(
            paired(texts_of(texts@), line_order@),
            item_budget as nat,
        ) {
            Ok(out) => r matches Ok(sorted) && texts_of(sorted@) == text_values(out),
            Err(e) => r == Err::<Vec<String>, SortError>(SortError::Decode(e)),
        },
        texts@.len() == line_order@.len() && spills_readable(
            paired(texts_of(texts@), line_order@),
            item_budget as nat,
        ) ==> (r matches Ok(sorted) && texts_of(sorted@) == text_values(
            stable_sort(paired(texts_of(texts@), line_order@)),
        )),
{
    let lines = match pair_lines(texts, line_order) {
        Ok(lines) => lines,
        Err(e) => {
            return Err(SortError::Order(e));
        },
    };
    match sort_lines(&lines, item_budget) {
        Ok(sorted) => {
            let mut out: Vec<String> = Vec::new();
            let mut i: usize = 0;
            while i < sorted.len()
                invariant
                    i <= sorted.len(),
                    out@.len() == i,
                    forall|j: int| 0 <= j < i ==> (#[trigger] out@[j])@ == sorted@[j]@.text,
                decreases sorted.len() - i,
            {
                out.push(sorted[i].1.clone());
                i += 1;
            }
            assert(texts_of(out@) =~= text_values(records(sorted@)));
            Ok(out)
        },
        Err(e) => Err(SortError::Decode(e)),
    }
}

/// Appends the text of `line` and a terminator to `out`: one line of output.
pub fn write_text(line: &Line, out: &mut Vec<u8>)
    ensures
        final(out)@ == old(out)@ + encode_utf8(line@.text) + seq![TERMINATOR],
{
    out.extend_from_slice(line.1.as_str().as_bytes());
    out.push(TERMINATOR);
}

} // verus!
