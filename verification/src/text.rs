//! Text as a sequence of characters: splitting at a separator, splitting at
//! white space, and finding one text inside another.

use vstd::prelude::*;

verus! {

/// The characters of `text`.
pub fn chars_of(text: &str) -> (chars: Vec<char>)
    ensures
        chars@ == text@,
{
    let mut chars: Vec<char> = Vec::new();
    for c in it: text.chars()
        invariant
            it.seq() == text@,
            chars@ == it.seq().take(it.index() as int),
    {
        chars.push(c);
        assert(it.seq().take(it.index() + 1) =~= it.seq().take(it.index() as int).push(c));
    }
    assert(chars@ =~= text@);
    chars
}

/// `String::from_iter` over characters: the text that they spell.
#[verifier::external_body]
pub(crate) fn string_of(chars: &Vec<char>) -> (text: String)
    ensures
        text@ == chars@,
{
    String::from_iter(chars.iter())
}

/// The characters with the Unicode property White_Space.
pub open spec fn is_space(c: char) -> bool {
    let n = c as u32;
    ||| 0x9 <= n <= 0xd
    ||| n == 0x20
    ||| n == 0x85
    ||| n == 0xa0
    ||| n == 0x1680
    ||| 0x2000 <= n <= 0x200a
    ||| n == 0x2028
    ||| n == 0x2029
    ||| n == 0x202f
    ||| n == 0x205f
    ||| n == 0x3000
}

/// Whether `c` is white space.
pub fn is_whitespace(c: char) -> (space: bool)
    ensures
        space == is_space(c),
{
    let n = c as u32;
    (0x9 <= n && n <= 0xd) || n == 0x20 || n == 0x85 || n == 0xa0 || n == 0x1680 || (0x2000 <= n
        && n <= 0x200a) || n == 0x2028 || n == 0x2029 || n == 0x202f || n == 0x205f || n == 0x3000
}

/// The pieces of `s` between occurrences of `sep`. There is one piece more
/// than there are separators; pieces may be empty.
pub open spec fn pieces(s: Seq<char>, sep: char) -> Seq<Seq<char>>
    decreases s.len(),
{
    if s.len() == 0 {
        seq![Seq::empty()]
    } else {
        let before = pieces(s.drop_last(), sep);
        if s.last() == sep {
            before.push(Seq::empty())
        } else {
            before.drop_last().push(before.last().push(s.last()))
        }
    }
}

/// There is always at least one piece.
pub proof fn lemma_pieces_nonempty(s: Seq<char>, sep: char)
    ensures
        pieces(s, sep).len() >= 1,
    decreases s.len(),
{
    if s.len() != 0 {
        lemma_pieces_nonempty(s.drop_last(), sep);
    }
}

/// Splits `chars` at every `sep`.
pub fn split(chars: &Vec<char>, sep: char) -> (parts: Vec<Vec<char>>)
    ensures
        parts@.map_values(|part: Vec<char>| part@) == pieces(chars@, sep),
{
    let mut parts: Vec<Vec<char>> = Vec::new();
    let mut open: Vec<char> = Vec::new();
    let mut i: usize = 0;
    proof {
        assert(chars@.take(0) =~= Seq::<char>::empty());
        assert(parts@.map_values(|part: Vec<char>| part@).push(open@) =~= pieces(
            chars@.take(0),
            sep,
        ));
    }
    while i < chars.len()
        invariant
            i <= chars.len(),
            parts@.map_values(|part: Vec<char>| part@).push(open@) == pieces(
                chars@.take(i as int),
                sep,
            ),
        decreases chars.len() - i,
    {
        let ghost done = parts@.map_values(|part: Vec<char>| part@);
        let ghost was_open = open@;
        proof {
            assert(chars@.take(i + 1).drop_last() =~= chars@.take(i as int));
            assert(done.push(was_open).drop_last() =~= done);
        }
        if chars[i] == sep {
            parts.push(open);
            open = Vec::new();
            proof {
                assert(parts@.map_values(|part: Vec<char>| part@) =~= done.push(was_open));
            }
        } else {
            open.push(chars[i]);
        }
        i += 1;
    }
    proof {
        assert(chars@.take(i as int) =~= chars@);
    }
    let ghost done = parts@.map_values(|part: Vec<char>| part@);
    let ghost was_open = open@;
    parts.push(open);
    proof {
        assert(parts@.map_values(|part: Vec<char>| part@) =~= done.push(was_open));
    }
    parts
}

/// Reading `s` from the left: the fields that are complete, and the
/// characters of a field that has begun and not yet ended.
pub open spec fn scan_fields(s: Seq<char>) -> (Seq<Seq<char>>, Seq<char>)
    decreases s.len(),
{
    if s.len() == 0 {
        (Seq::empty(), Seq::empty())
    } else {
        let (done, open) = scan_fields(s.drop_last());
        if !is_space(s.last()) {
            (done, open.push(s.last()))
        } else if open.len() > 0 {
            (done.push(open), Seq::empty())
        } else {
            (done, open)
        }
    }
}

/// The fields of `s`: its longest stretches without white space, in order.
pub open spec fn fields(s: Seq<char>) -> Seq<Seq<char>> {
    let (done, open) = scan_fields(s);
    if open.len() > 0 {
        done.push(open)
    } else {
        done
    }
}

/// Splits `chars` into its fields.
pub fn split_whitespace(chars: &Vec<char>) -> (words: Vec<Vec<char>>)
    ensures
        words@.map_values(|word: Vec<char>| word@) == fields(chars@),
{
    let mut words: Vec<Vec<char>> = Vec::new();
    let mut open: Vec<char> = Vec::new();
    let mut i: usize = 0;
    proof {
        assert(chars@.take(0) =~= Seq::<char>::empty());
        assert(words@.map_values(|word: Vec<char>| word@) =~= Seq::<Seq<char>>::empty());
    }
    while i < chars.len()
        invariant
            i <= chars.len(),
            words@.map_values(|word: Vec<char>| word@) == scan_fields(chars@.take(i as int)).0,
            open@ == scan_fields(chars@.take(i as int)).1,
        decreases chars.len() - i,
    {
        let ghost done = words@.map_values(|word: Vec<char>| word@);
        let ghost was_open = open@;
        proof {
            assert(chars@.take(i + 1).drop_last() =~= chars@.take(i as int));
        }
        if !is_whitespace(chars[i]) {
            open.push(chars[i]);
        } else if open.len() > 0 {
            words.push(open);
            open = Vec::new();
            proof {
                assert(words@.map_values(|word: Vec<char>| word@) =~= done.push(was_open));
            }
        }
        i += 1;
    }
    proof {
        assert(chars@.take(i as int) =~= chars@);
    }
    if open.len() > 0 {
        let ghost done = words@.map_values(|word: Vec<char>| word@);
        let ghost was_open = open@;
        words.push(open);
        proof {
            assert(words@.map_values(|word: Vec<char>| word@) =~= done.push(was_open));
        }
    }
    words
}

/// `needle` stands in `hay` at position `at`.
pub open spec fn occurs_at(hay: Seq<char>, needle: Seq<char>, at: int) -> bool {
    0 <= at && at + needle.len() <= hay.len() && hay.subrange(at, at + needle.len()) == needle
}

/// The first position at or after `from` where `needle` stands in `hay`.
pub open spec fn first_match(hay: Seq<char>, needle: Seq<char>, from: int) -> Option<int>
    decreases hay.len() - from,
{
    if from < 0 || from + needle.len() > hay.len() {
        None
    } else if occurs_at(hay, needle, from) {
        Some(from)
    } else if from >= hay.len() {
        None
    } else {
        first_match(hay, needle, from + 1)
    }
}

/// `first_match` gives a position where the needle stands, and it stands at
/// no position between `from` and there.
pub proof fn lemma_first_match(hay: Seq<char>, needle: Seq<char>, from: int)
    requires
        0 <= from,
    ensures
        match first_match(hay, needle, from) {
            Some(at) => from <= at && occurs_at(hay, needle, at) && forall|q: int|
                from <= q < at ==> !occurs_at(hay, needle, q),
            None => forall|q: int| from <= q ==> !occurs_at(hay, needle, q),
        },
    decreases hay.len() - from,
{
    if from + needle.len() <= hay.len() && !occurs_at(hay, needle, from) && from < hay.len() {
        lemma_first_match(hay, needle, from + 1);
    }
}

/// Whether `needle` stands in `hay` at position `at`.
fn stands_at(hay: &Vec<char>, needle: &Vec<char>, at: usize) -> (found: bool)
    requires
        at + needle@.len() <= hay@.len(),
    ensures
        found == occurs_at(hay@, needle@, at as int),
{
    let mut i: usize = 0;
    while i < needle.len()
        invariant
            i <= needle@.len(),
            at + needle@.len() <= hay@.len(),
            forall|j: int| 0 <= j < i ==> hay@[at + j] == needle@[j],
        decreases needle.len() - i,
    {
        assert(at + i < hay.len());
        if hay[at + i] != needle[i] {
            proof {
                assert(hay@.subrange(at as int, at + needle@.len())[i as int] == hay@[at + i]);
            }
            return false;
        }
        i += 1;
    }
    assert(hay@.subrange(at as int, at + needle@.len()) =~= needle@);
    true
}

/// The first position where `needle` stands in `hay`.
pub fn find(hay: &Vec<char>, needle: &Vec<char>) -> (at: Option<usize>)
    ensures
        match at {
            Some(p) => first_match(hay@, needle@, 0) == Some(p as int),
            None => first_match(hay@, needle@, 0) is None,
        },
{
    if needle.len() > hay.len() {
        return None;
    }
    let last = hay.len() - needle.len();
    let mut from: usize = 0;
    loop
        invariant
            from <= last,
            last + needle@.len() == hay@.len(),
            first_match(hay@, needle@, 0) == first_match(hay@, needle@, from as int),
        decreases last - from,
    {
        if stands_at(hay, needle, from) {
            return Some(from);
        }
        if from == last {
            return None;
        }
        from += 1;
    }
}

/// Whether two texts are the same.
pub fn same_chars(a: &Vec<char>, b: &Vec<char>) -> (same: bool)
    ensures
        same == (a@ == b@),
{
    if a.len() != b.len() {
        return false;
    }
    let mut i: usize = 0;
    while i < a.len()
        invariant
            i <= a@.len(),
            a@.len() == b@.len(),
            forall|j: int| 0 <= j < i ==> a@[j] == b@[j],
        decreases a.len() - i,
    {
        if a[i] != b[i] {
            return false;
        }
        i += 1;
    }
    assert(a@ =~= b@);
    true
}

} // verus!
