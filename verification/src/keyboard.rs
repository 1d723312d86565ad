//! The rules of the key-press counter: which input devices are keyboards,
//! which keys are modifiers, and which lines of the event stream count.
//!
//! Running the tools that list devices and keys, and reading their output,
//! is left to the caller. These functions take the text that the tools wrote.

use crate::text::{
    chars_of, fields, find, first_match, pieces, same_chars, split, split_whitespace, string_of,
};
use regex::RegexBuilder;
use vstd::prelude::*;

verus! {

/// Why a device listing could not be read.
#[derive(Debug, Clone, Copy, PartialEq, Eq, Structural)]
pub enum ListingError {
    /// A keyboard line holds no `id=`.
    MissingId,
    /// No digits stand where the id is looked for, or they spell a number
    /// that does not fit.
    BadId,
}

/// The number of bytes that `c` takes in UTF-8.
pub open spec fn utf8_len(c: char) -> nat {
    let n = c as u32;
    if n < 0x80 {
        1
    } else if n < 0x800 {
        2
    } else if n < 0x10000 {
        3
    } else {
        4
    }
}

/// The number of bytes that `s` takes in UTF-8.
pub open spec fn byte_len(s: Seq<char>) -> nat
    decreases s.len(),
{
    if s.len() == 0 {
        0
    } else {
        byte_len(s.drop_last()) + utf8_len(s.last())
    }
}

/// The ten decimal digits.
pub open spec fn is_digit(c: char) -> bool {
    '0' <= c && c <= '9'
}

/// The first position at or after `from` that holds no digit, or the length
/// of `s`.
pub open spec fn digits_end(s: Seq<char>, from: int) -> int
    decreases s.len() - from,
{
    if from >= s.len() {
        s.len() as int
    } else if !is_digit(s[from]) {
        from
    } else {
        digits_end(s, from + 1)
    }
}

/// The number that the digits spell in base ten; 0 for no digits.
pub open spec fn decimal(digits: Seq<char>) -> nat
    decreases digits.len(),
{
    if digits.len() == 0 {
        0
    } else {
        decimal(digits.drop_last()) * 10 + (digits.last() as u32 - '0' as u32) as nat
    }
}

/// The number spelled by the digits of `line` that start at character
/// `start`: `BadId` if no digit stands there or the number exceeds `i32::MAX`.
pub open spec fn number_at(line: Seq<char>, start: nat) -> Result<i32, ListingError> {
    if start >= line.len() {
        Err(ListingError::BadId)
    } else {
        let digits = line.subrange(start as int, digits_end(line, start as int));
        if digits.len() == 0 || decimal(digits) > i32::MAX {
            Err(ListingError::BadId)
        } else {
            Ok(decimal(digits) as i32)
        }
    }
}

/// What a line of the device listing says: nothing, if it does not name a
/// slave keyboard; else the device id.
///
/// The id is looked for by skipping as many characters as the first `id=`
/// lies bytes into the line, and one more. That lands behind the `=` when the
/// text in front of `id=` takes two bytes more than it has characters, as it
/// does with the one tree-drawing character of the tool's output.
pub open spec fn device_id(line: Seq<char>) -> Option<Result<i32, ListingError>> {
    if first_match(line, "slave  keyboard"@, 0) is None {
        None
    } else {
        match first_match(line, "id="@, 0) {
            None => Some(Err(ListingError::MissingId)),
            Some(at) => Some(number_at(line, byte_len(line.take(at)) + 1)),
        }
    }
}

/// The ids of the keyboard lines among `lines`, in order, or the failure of
/// the first line that cannot be read.
pub open spec fn device_ids(lines: Seq<Seq<char>>) -> Result<Seq<i32>, ListingError>
    decreases lines.len(),
{
    if lines.len() == 0 {
        Ok(Seq::empty())
    } else {
        match device_ids(lines.drop_last()) {
            Ok(ids) => match device_id(lines.last()) {
                None => Ok(ids),
                Some(Ok(id)) => Ok(ids.push(id)),
                Some(Err(e)) => Err(e),
            },
            Err(e) => Err(e),
        }
    }
}

/// A stretch of digits followed by another character or the end is where
/// `digits_end` stops.
pub proof fn lemma_digits_end(s: Seq<char>, from: int, end: int)
    requires
        0 <= from <= end <= s.len(),
        forall|j: int| from <= j < end ==> is_digit(s[j]),
        end == s.len() || !is_digit(s[end]),
    ensures
        digits_end(s, from) == end,
    decreases end - from,
{
    if from < end {
        lemma_digits_end(s, from + 1, end);
    }
}

/// Digits, and only digits, stand between `from` and `digits_end`.
pub proof fn lemma_digits_end_bounds(s: Seq<char>, from: int)
    requires
        0 <= from <= s.len(),
    ensures
        from <= digits_end(s, from) <= s.len(),
        forall|j: int| from <= j < digits_end(s, from) ==> is_digit(s[j]),
        digits_end(s, from) == s.len() || !is_digit(s[digits_end(s, from)]),
    decreases s.len() - from,
{
    if from < s.len() && is_digit(s[from]) {
        lemma_digits_end_bounds(s, from + 1);
    }
}

/// More digits never spell a smaller number.
pub proof fn lemma_decimal_grows(digits: Seq<char>, n: int)
    requires
        0 <= n <= digits.len(),
    ensures
        decimal(digits.take(n)) <= decimal(digits),
    decreases digits.len() - n,
{
    if n < digits.len() {
        lemma_decimal_grows(digits, n + 1);
        assert(digits.take(n + 1).drop_last() =~= digits.take(n));
    } else {
        assert(digits.take(n) =~= digits);
    }
}

/// The number of bytes that `c` takes in UTF-8.
fn len_utf8(c: char) -> (n: u128)
    ensures
        n == utf8_len(c),
{
    let code = c as u32;
    if code < 0x80 {
        1
    } else if code < 0x800 {
        2
    } else if code < 0x10000 {
        3
    } else {
        4
    }
}

/// Reads the number whose digits start at character `start` of `line`.
fn parse_number(line: &Vec<char>, start: u128) -> (r: Result<i32, ListingError>)
    ensures
        r == number_at(line@, start as nat),
{
    if start >= line.len() as u128 {
        return Err(ListingError::BadId);
    }
    let first = start as usize;
    let mut end: usize = first;
    let mut value: u64 = 0;
    while end < line.len() && '0' <= line[end] && line[end] <= '9'
        invariant
            first == start,
            first <= end <= line@.len(),
            first < line@.len(),
            forall|j: int| first <= j < end ==> is_digit(line@[j]),
            value == decimal(line@.subrange(first as int, end as int)),
            value <= i32::MAX,
        decreases line.len() - end,
    {
        let digit = (line[end] as u32 - '0' as u32) as u64;
        let ghost seen = line@.subrange(first as int, end + 1);
        proof {
            assert(seen.drop_last() =~= line@.subrange(first as int, end as int));
            assert(seen.last() == line@[end as int]);
        }
        if value * 10 + digit > i32::MAX as u64 {
            proof {
                lemma_digits_end_bounds(line@, first as int);
                let stop = digits_end(line@, first as int);
                assert(is_digit(line@[end as int]));
                let digits = line@.subrange(first as int, stop);
                assert(digits.take(end + 1 - first) =~= seen);
                lemma_decimal_grows(digits, end + 1 - first);
            }
            return Err(ListingError::BadId);
        }
        value = value * 10 + digit;
        end += 1;
    }
    proof {
        lemma_digits_end(line@, first as int, end as int);
    }
    if end == first {
        Err(ListingError::BadId)
    } else {
        Ok(value as i32)
    }
}

/// Reads one line of the device listing.
pub fn read_device_line(line: &Vec<char>) -> (r: Option<Result<i32, ListingError>>)
    ensures
        r == device_id(line@),
{
    let keyboard = chars_of("slave  keyboard");
    if find(line, &keyboard).is_none() {
        return None;
    }
    let marker = chars_of("id=");
    match find(line, &marker) {
        None => Some(Err(ListingError::MissingId)),
        Some(at) => {
            proof {
                crate::text::lemma_first_match(line@, marker@, 0);
                assert(line@.take(0) =~= Seq::<char>::empty());
            }
            let mut bytes: u128 = 0;
            let mut i: usize = 0;
            while i < at
                invariant
                    i <= at <= line@.len(),
                    first_match(line@, "id="@, 0) == Some(at as int),
                    first_match(line@, "slave  keyboard"@, 0) is Some,
                    bytes == byte_len(line@.take(i as int)),
                    bytes <= 4 * i,
                decreases at - i,
            {
                proof {
                    assert(line@.take(i + 1).drop_last() =~= line@.take(i as int));
                }
                bytes = bytes + len_utf8(line[i]);
                i += 1;
            }
            Some(parse_number(line, bytes + 1))
        },
    }
}

/// The ids of the slave keyboards in a device listing, in the order of
/// their lines. Fails at the first keyboard line whose id cannot be read.
pub fn get_device_list(listing: &str) -> (r: Result<Vec<i32>, ListingError>)
    ensures
        match device_ids(pieces(listing@, '\n')) {
            Ok(ids) => r matches Ok(devices) && devices@ == ids,
            Err(e) => r matches Err(failure) && failure == e,
        },
{
    let lines = split(&chars_of(listing), '\n');
    let ghost all = pieces(listing@, '\n');
    let mut devices: Vec<i32> = Vec::new();
    let mut i: usize = 0;
    proof {
        assert(all.take(0) =~= Seq::<Seq<char>>::empty());
    }
    while i < lines.len()
        invariant
            i <= lines.len(),
            all == pieces(listing@, '\n'),
            all == lines@.map_values(|part: Vec<char>| part@),
            device_ids(all.take(i as int)) == Ok::<Seq<i32>, ListingError>(devices@),
        decreases lines.len() - i,
    {
        proof {
            assert(all.take(i + 1).drop_last() =~= all.take(i as int));
            assert(all.take(i + 1).last() == lines@[i as int]@);
        }
        match read_device_line(&lines[i]) {
            None => {},
            Some(Ok(id)) => {
                devices.push(id);
            },
            Some(Err(e)) => {
                proof {
                    lemma_device_ids_failure(all, i + 1);
                }
                return Err(e);
            },
        }
        i += 1;
    }
    proof {
        assert(all.take(i as int) =~= all);
    }
    Ok(devices)
}

/// A failure among the first lines is the failure of the whole listing.
pub proof fn lemma_device_ids_failure(lines: Seq<Seq<char>>, n: int)
    requires
        0 <= n <= lines.len(),
        device_ids(lines.take(n)) is Err,
    ensures
        device_ids(lines) == device_ids(lines.take(n)),
    decreases lines.len() - n,
{
    if n < lines.len() {
        assert(lines.take(n + 1).drop_last() =~= lines.take(n));
        lemma_device_ids_failure(lines, n + 1);
    } else {
        assert(lines.take(n) =~= lines);
    }
}

/// The pattern that a line of the key table matches when it names a
/// modifier key. It is applied without regard to case.
pub const MODIFIER_PATTERN: &'static str = ".*\\b(shift_[lr]|alt_[lr]|control_[lr]|caps_lock)\\b.*";

/// Why the modifier keys could not be collected.
#[derive(Debug, Clone, Copy, PartialEq, Eq, Structural)]
pub enum ModifierError {
    /// The pattern was not accepted as a regular expression.
    BadPattern,
    /// A line that matches the pattern has no field.
    NoField,
}

/// Whether the `regex` crate accepts `pattern` as a regular expression.
pub uninterp spec fn regex_compiles(pattern: Seq<char>, case_insensitive: bool) -> bool;

/// Whether the regular expression `pattern` matches somewhere in `text`, as
/// the `regex` crate decides it.
pub uninterp spec fn regex_is_match(
    pattern: Seq<char>,
    case_insensitive: bool,
    text: Seq<char>,
) -> bool;

/// `regex::RegexBuilder::build`, then `regex::Regex::is_match` on `text`:
/// nothing if the pattern is not accepted, else whether it matches. Both are
/// functions of the pattern, the flag and the text alone.
#[verifier::external_body]
fn is_match(pattern: &str, case_insensitive: bool, text: &str) -> (found: Option<bool>)
    ensures
        found is Some <==> regex_compiles(pattern@, case_insensitive),
        found matches Some(matched) ==> matched == regex_is_match(
            pattern@,
            case_insensitive,
            text@,
        ),
{
    match RegexBuilder::new(pattern).case_insensitive(case_insensitive).build() {
        Ok(re) => Some(re.is_match(text)),
        Err(_) => None,
    }
}

/// `piece` without a carriage return at its end.
pub open spec fn strip_return(piece: Seq<char>) -> Seq<char> {
    if piece.len() > 0 && piece.last() == '\r' {
        piece.drop_last()
    } else {
        piece
    }
}

/// The lines of `s`. A line ends at a line feed; the line feed, and a
/// carriage return in front of it, are not part of the line. What follows
/// the last line feed is a line if it is not empty.
pub open spec fn text_lines(s: Seq<char>) -> Seq<Seq<char>> {
    let parts = pieces(s, '\n');
    let ended = parts.drop_last().map_values(|piece: Seq<char>| strip_return(piece));
    if parts.last().len() > 0 {
        ended.push(parts.last())
    } else {
        ended
    }
}

/// Splits `text` into its lines.
pub fn lines_of(text: &str) -> (lines: Vec<Vec<char>>)
    ensures
        lines@.map_values(|line: Vec<char>| line@) == text_lines(text@),
{
    let parts = split(&chars_of(text), '\n');
    proof {
        crate::text::lemma_pieces_nonempty(text@, '\n');
    }
    let ghost all = pieces(text@, '\n');
    let mut lines: Vec<Vec<char>> = Vec::new();
    let mut i: usize = 0;
    while i + 1 < parts.len()
        invariant
            i + 1 <= parts.len(),
            all == parts@.map_values(|part: Vec<char>| part@),
            lines@.len() == i,
            forall|j: int| 0 <= j < i ==> (#[trigger] lines@[j])@ == strip_return(all[j]),
        decreases parts.len() - i,
    {
        let mut line = parts[i].clone();
        assert(all[i as int] == parts@[i as int]@);
        if line.len() > 0 && line[line.len() - 1] == '\r' {
            line.pop();
        }
        lines.push(line);
        i += 1;
    }
    let last = parts[parts.len() - 1].clone();
    assert(all.last() == parts@[parts.len() - 1]@);
    if last.len() > 0 {
        lines.push(last);
    }
    assert(lines@.map_values(|line: Vec<char>| line@) =~= text_lines(text@));
    lines
}

/// What a line of the key table adds to the modifier keys: nothing if it
/// does not match the pattern, else its first field.
pub open spec fn modifier_key_of(line: Seq<char>, matched: bool) -> Option<
    Result<Seq<char>, ModifierError>,
> {
    if !matched {
        None
    } else if fields(line).len() == 0 {
        Some(Err(ModifierError::NoField))
    } else {
        Some(Ok(fields(line)[0]))
    }
}

/// The first fields of the lines that match the modifier pattern, in order,
/// or the failure of the first line that cannot be read.
pub open spec fn modifier_keys(lines: Seq<Seq<char>>) -> Result<Seq<Seq<char>>, ModifierError>
    decreases lines.len(),
{
    if lines.len() == 0 {
        Ok(Seq::empty())
    } else {
        match modifier_keys(lines.drop_last()) {
            Ok(keys) => match modifier_key_of(
                lines.last(),
                regex_is_match(MODIFIER_PATTERN@, true, lines.last()),
            ) {
                None => Ok(keys),
                Some(Ok(key)) => Ok(keys.push(key)),
                Some(Err(e)) => Err(e),
            },
            Err(e) => Err(e),
        }
    }
}

/// A failure among the first lines is the failure of the whole table.
pub proof fn lemma_modifier_keys_failure(lines: Seq<Seq<char>>, n: int)
    requires
        0 <= n <= lines.len(),
        modifier_keys(lines.take(n)) is Err,
    ensures
        modifier_keys(lines) == modifier_keys(lines.take(n)),
    decreases lines.len() - n,
{
    if n < lines.len() {
        assert(lines.take(n + 1).drop_last() =~= lines.take(n));
        lemma_modifier_keys_failure(lines, n + 1);
    } else {
        assert(lines.take(n) =~= lines);
    }
}

/// What a line of the key table adds to the modifier keys, given whether the
/// line matches the modifier pattern.
pub fn modifier_key(line: &Vec<char>, matched: bool) -> (r: Option<Result<String, ModifierError>>)
    ensures
        match modifier_key_of(line@, matched) {
            None => r is None,
            Some(Ok(key)) => r matches Some(Ok(found)) && found@ == key,
            Some(Err(e)) => r matches Some(Err(failure)) && failure == e,
        },
{
    if !matched {
        return None;
    }
    let words = split_whitespace(line);
    if words.len() == 0 {
        Some(Err(ModifierError::NoField))
    } else {
        assert(fields(line@)[0] == words@[0]@);
        Some(Ok(string_of(&words[0])))
    }
}

/// The values of a list of keys.
pub open spec fn key_values(keys: Seq<String>) -> Seq<Seq<char>> {
    keys.map_values(|key: String| key@)
}

/// The codes of the modifier keys in a key table: the first field of every
/// line that names a modifier key.
///
/// The pattern is tried before any line is read: if it is not accepted the
/// result is `BadPattern`, whatever the table holds. A matching line without
/// a field gives `NoField`.
pub fn get_modifier_keys(table: &str) -> (r: Result<Vec<String>, ModifierError>)
    ensures
        !regex_compiles(MODIFIER_PATTERN@, true) ==> r == Err::<Vec<String>, ModifierError>(
            ModifierError::BadPattern,
        ),
        regex_compiles(MODIFIER_PATTERN@, true) ==> match modifier_keys(text_lines(table@)) {
            Ok(keys) => r matches Ok(found) && key_values(found@) == keys,
            Err(e) => r matches Err(failure) && failure == e,
        },
{
    if is_match(MODIFIER_PATTERN, true, "").is_none() {
        return Err(ModifierError::BadPattern);
    }
    let lines = lines_of(table);
    let ghost all = text_lines(table@);
    let mut keys: Vec<String> = Vec::new();
    let mut i: usize = 0;
    proof {
        assert(all.take(0) =~= Seq::<Seq<char>>::empty());
        assert(key_values(keys@) =~= Seq::<Seq<char>>::empty());
    }
    while i < lines.len()
        invariant
            i <= lines.len(),
            all == text_lines(table@),
            all == lines@.map_values(|line: Vec<char>| line@),
            regex_compiles(MODIFIER_PATTERN@, true),
            modifier_keys(all.take(i as int)) == Ok::<Seq<Seq<char>>, ModifierError>(
                key_values(keys@),
            ),
        decreases lines.len() - i,
    {
        proof {
            assert(all.take(i + 1).drop_last() =~= all.take(i as int));
            assert(all.take(i + 1).last() == lines@[i as int]@);
        }
        let text = string_of(&lines[i]);
        let matched = match is_match(MODIFIER_PATTERN, true, text.as_str()) {
            Some(matched) => matched,
            None => {
                return Err(ModifierError::BadPattern);
            },
        };
        match modifier_key(&lines[i], matched) {
            None => {},
            Some(Ok(key)) => {
                let ghost before = key_values(keys@);
                keys.push(key);
                proof {
                    assert(key_values(keys@) =~= before.push(key@));
                }
            },
            Some(Err(e)) => {
                proof {
                    lemma_modifier_keys_failure(all, i + 1);
                }
                return Err(e);
            },
        }
        i += 1;
    }
    proof {
        assert(all.take(i as int) =~= all);
    }
    Ok(keys)
}

/// Whether a line of the event stream reports the press of a key that is no
/// modifier: its second field is `press`, and its third field, the key code,
/// is none of the modifier keys.
pub open spec fn counts_as_press(line: Seq<char>, modifier_keys: Seq<Seq<char>>) -> bool {
    let words = fields(line);
    words.len() >= 3 && words[1] == "press"@ && !modifier_keys.contains(words[2])
}

/// Whether `line` counts as a key press.
pub fn is_key_press(line: &Vec<char>, modifier_keys: &Vec<String>) -> (counts: bool)
    ensures
        counts == counts_as_press(line@, key_values(modifier_keys@)),
{
    let words = split_whitespace(line);
    if words.len() < 3 {
        return false;
    }
    assert(fields(line@)[1] == words@[1]@);
    assert(fields(line@)[2] == words@[2]@);
    if !same_chars(&words[1], &chars_of("press")) {
        return false;
    }
    let ghost keys = key_values(modifier_keys@);
    let mut i: usize = 0;
    while i < modifier_keys.len()
        invariant
            i <= modifier_keys.len(),
            keys == key_values(modifier_keys@),
            words@.len() >= 3,
            fields(line@).len() == words@.len(),
            fields(line@)[1] == "press"@,
            fields(line@)[2] == words@[2]@,
            forall|j: int| 0 <= j < i ==> keys[j] != words@[2]@,
        decreases modifier_keys.len() - i,
    {
        if same_chars(&words[2], &chars_of(modifier_keys[i].as_str())) {
            assert(keys[i as int] == words@[2]@);
            return false;
        }
        i += 1;
    }
    true
}

/// The character whose code is `byte`.
pub open spec fn latin(byte: u8) -> char {
    byte as char
}

/// A reader of the event stream of one device. It takes the stream byte by
/// byte, each byte standing for the character of its code, and tells at the
/// end of each line whether the line counts as a key press.
pub struct PressScanner {
    pending: Vec<char>,
}

impl PressScanner {
    /// The characters of the line that is being read.
    pub closed spec fn pending(&self) -> Seq<char> {
        self.pending@
    }

    /// A reader at the start of a line.
    pub fn new() -> (scanner: PressScanner)
        ensures
            scanner.pending() == Seq::<char>::empty(),
    {
        PressScanner { pending: Vec::new() }
    }

    /// Takes the next byte of the stream. A line feed ends the line: the
    /// result then says whether the line counts, and the next line begins.
    pub fn feed(&mut self, byte: u8, modifier_keys: &Vec<String>) -> (pressed: bool)
        ensures
            byte == 10 ==> final(self).pending() == Seq::<char>::empty() && pressed
                == counts_as_press(old(self).pending(), key_values(modifier_keys@)),
            byte != 10 ==> final(self).pending() == old(self).pending().push(latin(byte))
                && !pressed,
    {
        if byte == 10 {
            let pressed = is_key_press(&self.pending, modifier_keys);
            self.pending = Vec::new();
            pressed
        } else {
            self.pending.push(byte as char);
            false
        }
    }
}

} // verus!
