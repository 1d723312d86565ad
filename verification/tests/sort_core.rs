use biglog_sort::chunk::{decode_chunk, encode_chunk, ChunkReader};
use biglog_sort::engine::{sort_lines, ChunkSorter, Finish};
use biglog_sort::merge::{merge_runs, Merger};
use biglog_sort::pipeline::{plan, sort_texts, write_text, Plan, SortError, ITEM_BUDGET};
use biglog_sort::record::{DecodeError, Line};
use biglog_sort::sorting::{sort_by_key, sorted_positions};
use biglog_sort::resolve::{
    check_line_count, make_line_order, pair_lines, tag_line, KeyAssigner, LineMap, OrderError,
};

fn line(key: u32, text: &str) -> Line {
    Line(key, text.to_string())
}

fn texts(items: &[&str]) -> Vec<String> {
    items.iter().map(|s| s.to_string()).collect()
}

fn sample() -> Vec<Line> {
    vec![
        line(5, "e0"),
        line(1, "a0"),
        line(3, "c0"),
        line(1, "a1"),
        line(5, "e1"),
        line(0, "z0"),
        line(3, "c1"),
        line(1, "a2"),
        line(4, "d0"),
        line(0, "z1"),
        line(5, "e2"),
    ]
}

fn sample_sorted() -> Vec<Line> {
    vec![
        line(0, "z0"),
        line(0, "z1"),
        line(1, "a0"),
        line(1, "a1"),
        line(1, "a2"),
        line(3, "c0"),
        line(3, "c1"),
        line(4, "d0"),
        line(5, "e0"),
        line(5, "e1"),
        line(5, "e2"),
    ]
}

#[test]
fn keys_reorder_lines() {
    let input = texts(&["a", "b", "c"]);
    let order = vec![2u32, 0, 1];
    let sorted = sort_texts(&input, &order, ITEM_BUDGET).unwrap();
    assert_eq!(sorted, texts(&["b", "c", "a"]));
}

#[test]
fn keys_reorder_lines_with_spills() {
    let input = texts(&["a", "b", "c"]);
    let order = vec![2u32, 0, 1];
    for budget in 0..5usize {
        let sorted = sort_texts(&input, &order, budget).unwrap();
        assert_eq!(sorted, texts(&["b", "c", "a"]));
    }
}

#[test]
fn empty_input_gives_empty_output() {
    let sorted = sort_lines(&Vec::new(), ITEM_BUDGET).unwrap();
    assert!(sorted.is_empty());
    let sorter = ChunkSorter::new(ITEM_BUDGET);
    assert_eq!(sorter.finish(), Finish::InMemory(Vec::new()));
    let none = sort_texts(&Vec::new(), &Vec::new(), 1).unwrap();
    assert!(none.is_empty());
}

#[test]
fn single_line_is_not_spilled() {
    for budget in [0usize, 1, 2, ITEM_BUDGET] {
        let mut sorter = ChunkSorter::new(budget);
        assert_eq!(sorter.push(line(7, "only")), None);
        assert_eq!(sorter.finish(), Finish::InMemory(vec![line(7, "only")]));
        let sorted = sort_lines(&vec![line(7, "only")], budget).unwrap();
        assert_eq!(sorted, vec![line(7, "only")]);
    }
}

#[test]
fn output_has_as_many_lines_as_input() {
    for budget in 0..13usize {
        let sorted = sort_lines(&sample(), budget).unwrap();
        assert_eq!(sorted.len(), sample().len());
    }
}

#[test]
fn output_keys_ascend() {
    for budget in 0..13usize {
        let sorted = sort_lines(&sample(), budget).unwrap();
        for pair in sorted.windows(2) {
            assert!(pair[0].0 <= pair[1].0);
        }
    }
}

#[test]
fn equal_keys_keep_arrival_order() {
    for budget in 0..13usize {
        let sorted = sort_lines(&sample(), budget).unwrap();
        assert_eq!(sorted, sample_sorted());
    }
}

#[test]
fn spilling_gives_the_in_memory_result() {
    let in_memory = sort_lines(&sample(), ITEM_BUDGET).unwrap();
    assert_eq!(in_memory, sample_sorted());
    for budget in 0..6usize {
        assert_eq!(sort_lines(&sample(), budget).unwrap(), in_memory);
    }
}

#[test]
fn full_buffer_spills_when_the_next_line_arrives() {
    let mut sorter = ChunkSorter::new(2);
    assert_eq!(sorter.push(line(9, "x")), None);
    assert_eq!(sorter.push(line(2, "y")), None);
    let store = sorter.push(line(1, "z")).unwrap();
    assert_eq!(store, vec![2, 0, 0, 0, b'y', 10, 9, 0, 0, 0, b'x', 10]);
    assert_eq!(sorter.push(line(0, "w")), None);
    assert_eq!(sorter.finish(), Finish::LastRun(vec![line(0, "w"), line(1, "z")]));
}

#[test]
fn input_of_exactly_the_budget_is_not_spilled() {
    let mut sorter = ChunkSorter::new(3);
    assert_eq!(sorter.push(line(3, "c")), None);
    assert_eq!(sorter.push(line(2, "b")), None);
    assert_eq!(sorter.push(line(1, "a")), None);
    assert_eq!(
        sorter.finish(),
        Finish::InMemory(vec![line(1, "a"), line(2, "b"), line(3, "c")])
    );
}

#[test]
fn budget_of_zero_holds_one_record() {
    let mut sorter = ChunkSorter::new(0);
    assert_eq!(sorter.push(line(4, "p")), None);
    assert_eq!(sorter.push(line(3, "q")), Some(vec![4, 0, 0, 0, b'p', 10]));
    assert_eq!(sorter.finish(), Finish::LastRun(vec![line(3, "q")]));
}

#[test]
fn encode_writes_key_text_terminator() {
    let mut out = vec![0xffu8];
    Line::encode(&line(0x0102_0304, "hi"), &mut out);
    assert_eq!(out, vec![0xff, 4, 3, 2, 1, b'h', b'i', 10]);
    let mut empty_text = Vec::new();
    Line::encode(&line(u32::MAX, ""), &mut empty_text);
    assert_eq!(empty_text, vec![255, 255, 255, 255, 10]);
    let mut wide = Vec::new();
    Line::encode(&line(1, "é"), &mut wide);
    assert_eq!(wide, vec![1, 0, 0, 0, 0xc3, 0xa9, 10]);
}

#[test]
fn decode_reads_back_what_encode_wrote() {
    for item in [line(0, ""), line(10, "ten"), line(u32::MAX, "日本語 text"), line(0x0a0a_0a0a, "k")] {
        let mut bytes = Vec::new();
        Line::encode(&item, &mut bytes);
        let used = bytes.len();
        bytes.extend_from_slice(&[1, 2, 3]);
        assert_eq!(Line::decode(&bytes), Ok(Some((item, used))));
    }
}

#[test]
fn decode_reports_end_of_data() {
    assert_eq!(Line::decode(&[]), Ok(None));
}

#[test]
fn decode_fails_inside_the_key() {
    assert_eq!(Line::decode(&[1]), Err(DecodeError::TruncatedKey));
    assert_eq!(Line::decode(&[1, 2, 3]), Err(DecodeError::TruncatedKey));
    assert_eq!(Line::decode(&[10, 10, 10]), Err(DecodeError::TruncatedKey));
}

#[test]
fn decode_fails_on_invalid_text() {
    assert_eq!(Line::decode(&[1, 0, 0, 0, 0xff, 10]), Err(DecodeError::InvalidText));
    assert_eq!(Line::decode(&[1, 0, 0, 0, 0xc3, 10]), Err(DecodeError::InvalidText));
}

#[test]
fn decode_refuses_a_frame_without_terminator() {
    assert_eq!(Line::decode(&[1, 0, 0, 0, 0x61]), Err(DecodeError::MissingTerminator));
    assert_eq!(Line::decode(&[7, 0, 0, 0, b'a', b'b']), Err(DecodeError::MissingTerminator));
    assert_eq!(Line::decode(&[7, 0, 0, 0]), Err(DecodeError::MissingTerminator));
    assert_eq!(Line::decode(&[10, 10, 10, 10]), Err(DecodeError::MissingTerminator));
    assert_eq!(Line::decode(&[7, 0, 0, 0, 0xff]), Err(DecodeError::MissingTerminator));
}

#[test]
fn decode_stops_at_the_first_terminator_behind_the_key() {
    assert_eq!(Line::decode(&[7, 1, 0, 0, 10, b'x']), Ok(Some((line(263, ""), 5))));
    assert_eq!(Line::decode(&[10, 10, 10, 10, b'k', 10, 10]), Ok(Some((line(0x0a0a_0a0a, "k"), 6))));
}

#[test]
fn chunk_store_round_trip() {
    let run = sample_sorted();
    let store = encode_chunk(&run);
    assert_eq!(decode_chunk(&store), Ok(run));
    assert_eq!(encode_chunk(&Vec::new()), Vec::<u8>::new());
    assert_eq!(decode_chunk(&[]), Ok(Vec::new()));
}

#[test]
fn chunk_store_with_trailing_bytes_fails() {
    let mut store = encode_chunk(&vec![line(1, "a")]);
    store.push(5);
    assert_eq!(decode_chunk(&store), Err(DecodeError::TruncatedKey));
}

#[test]
fn chunk_store_cut_off_inside_a_frame_fails() {
    let store = encode_chunk(&vec![line(1, "first"), line(2, "second")]);
    let whole = store.len();
    assert_eq!(decode_chunk(&store[..whole - 1]), Err(DecodeError::MissingTerminator));
    assert_eq!(decode_chunk(&store[..whole - 4]), Err(DecodeError::MissingTerminator));
    assert_eq!(decode_chunk(&store[..14]), Err(DecodeError::MissingTerminator));
    assert_eq!(decode_chunk(&store[..12]), Err(DecodeError::TruncatedKey));
    assert_eq!(decode_chunk(&store[..10]), Ok(vec![line(1, "first")]));
}

#[test]
fn embedded_terminator_corrupts_a_spilled_run() {
    let input = vec![line(1, "a\nb"), line(0, "c")];
    assert_eq!(sort_lines(&input, 1), Err(DecodeError::TruncatedKey));
    let kept = sort_lines(&input, 2).unwrap();
    assert_eq!(kept, vec![line(0, "c"), line(1, "a\nb")]);
    let shifted = vec![line(1, "a\n\u{2}\u{0}\u{0}\u{0}b"), line(0, "c")];
    assert_eq!(
        sort_lines(&shifted, 1),
        Ok(vec![line(0, "c"), line(1, "a"), line(2, "b")])
    );
}

#[test]
fn reader_hands_out_records_as_frames_complete() {
    let mut reader = ChunkReader::new();
    let store = encode_chunk(&vec![line(10, "x"), line(3, "")]);
    let mut seen = Vec::new();
    for byte in store {
        if let Some(found) = reader.feed(byte).unwrap() {
            seen.push(found);
        }
    }
    assert_eq!(seen, vec![line(10, "x"), line(3, "")]);
    assert_eq!(reader.finish(), Ok(()));
    assert_eq!(ChunkReader::new().finish(), Ok(()));
}

#[test]
fn reader_refuses_a_frame_that_was_cut_off() {
    let mut reader = ChunkReader::new();
    for byte in [1u8, 0, 0, 0, b'o'] {
        assert_eq!(reader.feed(byte), Ok(None));
    }
    assert_eq!(reader.finish(), Err(DecodeError::MissingTerminator));
    let mut key_only = ChunkReader::new();
    for byte in [1u8, 0, 0, 10] {
        assert_eq!(key_only.feed(byte), Ok(None));
    }
    assert_eq!(key_only.finish(), Err(DecodeError::MissingTerminator));
    let mut short = ChunkReader::new();
    assert_eq!(short.feed(10), Ok(None));
    assert_eq!(short.finish(), Err(DecodeError::TruncatedKey));
    let mut bad = ChunkReader::new();
    for byte in [1u8, 0, 0, 0, 0xff] {
        assert_eq!(bad.feed(byte), Ok(None));
    }
    assert_eq!(bad.feed(10), Err(DecodeError::InvalidText));
}

#[test]
fn merger_takes_least_key_and_earliest_run_on_ties() {
    let merger = Merger::new(vec![Some(line(5, "a")), None, Some(line(2, "b")), Some(line(2, "c"))]);
    assert_eq!(merger.select(), Some(2));
    let none = Merger::new(vec![None, None]);
    assert_eq!(none.select(), None);
    let empty = Merger::new(Vec::new());
    assert_eq!(empty.select(), None);
}

#[test]
fn merger_replaces_heads() {
    let mut merger = Merger::new(vec![Some(line(5, "a")), Some(line(2, "b"))]);
    assert_eq!(merger.replace_head(1, Some(line(9, "n"))), Some(line(2, "b")));
    assert_eq!(merger.select(), Some(0));
    assert_eq!(merger.replace_head(0, None), Some(line(5, "a")));
    assert_eq!(merger.select(), Some(1));
    assert_eq!(merger.replace_head(2, Some(line(0, "lost"))), None);
    assert_eq!(merger.select(), Some(1));
    assert_eq!(merger.replace_head(0, None), None);
}

#[test]
fn merge_runs_is_stable_across_runs() {
    let runs = vec![
        vec![line(1, "r0a"), line(3, "r0b")],
        Vec::new(),
        vec![line(1, "r2a"), line(2, "r2b"), line(3, "r2c")],
        vec![line(0, "r3a"), line(3, "r3b")],
    ];
    assert_eq!(
        merge_runs(&runs),
        vec![
            line(0, "r3a"),
            line(1, "r0a"),
            line(1, "r2a"),
            line(2, "r2b"),
            line(3, "r0b"),
            line(3, "r2c"),
            line(3, "r3b"),
        ]
    );
    assert_eq!(merge_runs(&Vec::new()), Vec::new());
}

#[test]
fn line_order_follows_the_ordinals() {
    let mut map = LineMap::new();
    map.insert(2, 20);
    map.insert(0, 7);
    map.insert(1, 9);
    map.insert(1, 10);
    assert_eq!(map.len(), 3);
    assert_eq!(map.get(1), Some(10));
    assert_eq!(map.get(3), None);
    assert_eq!(make_line_order(3, &map), Ok(vec![7, 10, 20]));
    assert_eq!(make_line_order(0, &LineMap::new()), Ok(Vec::new()));
}

#[test]
fn line_order_checks_the_line_count() {
    let mut map = LineMap::new();
    map.insert(0, 7);
    map.insert(1, 9);
    assert_eq!(make_line_order(3, &map), Err(OrderError::CountMismatch));
    assert_eq!(make_line_order(1, &map), Err(OrderError::CountMismatch));
    map.insert(3, 1);
    assert_eq!(make_line_order(3, &map), Err(OrderError::MissingLine(2)));
}

#[test]
fn assigner_gives_keys_in_line_order() {
    let mut assigner = KeyAssigner::new();
    for key in [9u32, 0, 9, 4] {
        assert!(assigner.assign(key));
    }
    let (line_cnt, line_map) = assigner.finish();
    assert_eq!(line_cnt, 4);
    assert_eq!(line_map.len(), 4);
    assert_eq!(line_map.get(2), Some(9));
    assert_eq!(make_line_order(line_cnt, &line_map), Ok(vec![9, 0, 9, 4]));
    let (none, empty) = KeyAssigner::new().finish();
    assert_eq!(make_line_order(none, &empty), Ok(Vec::new()));
}

#[test]
fn assigned_keys_sort_the_texts() {
    let input = texts(&["delta", "alpha", "echo", "bravo", "charlie"]);
    let mut assigner = KeyAssigner::new();
    for key in [3u32, 0, 4, 1, 2] {
        assert!(assigner.assign(key));
    }
    let (line_cnt, line_map) = assigner.finish();
    let order = make_line_order(line_cnt, &line_map).unwrap();
    for budget in 0..7usize {
        assert_eq!(
            sort_texts(&input, &order, budget),
            Ok(texts(&["alpha", "bravo", "charlie", "delta", "echo"]))
        );
    }
}

#[test]
fn lines_are_paired_with_keys_by_position() {
    assert_eq!(
        pair_lines(&texts(&["a", "b", "c"]), &vec![2, 0, 1]),
        Ok(vec![line(2, "a"), line(0, "b"), line(1, "c")])
    );
    assert_eq!(pair_lines(&Vec::new(), &Vec::new()), Ok(Vec::new()));
    assert_eq!(tag_line(&vec![4, 5], 1, "t".to_string()), Ok(line(5, "t")));
    assert_eq!(check_line_count(&vec![4, 5], 2), Ok(()));
}

#[test]
fn line_count_mismatch_is_an_error() {
    assert_eq!(pair_lines(&texts(&["a", "b"]), &vec![4]), Err(OrderError::CountMismatch));
    assert_eq!(pair_lines(&texts(&["a"]), &vec![4, 5]), Err(OrderError::CountMismatch));
    assert_eq!(tag_line(&vec![4, 5], 2, "t".to_string()), Err(OrderError::CountMismatch));
    assert_eq!(check_line_count(&vec![4, 5], 1), Err(OrderError::CountMismatch));
    assert_eq!(check_line_count(&vec![4, 5], 3), Err(OrderError::CountMismatch));
    assert_eq!(
        sort_texts(&texts(&["a", "b"]), &vec![1], ITEM_BUDGET),
        Err(SortError::Order(OrderError::CountMismatch))
    );
    assert_eq!(
        sort_texts(&texts(&["a"]), &vec![1, 2], 1),
        Err(SortError::Order(OrderError::CountMismatch))
    );
}

#[test]
fn unreadable_store_fails_the_sort_of_texts() {
    assert_eq!(
        sort_texts(&texts(&["a\nb", "c"]), &vec![1, 0], 1),
        Err(SortError::Decode(DecodeError::TruncatedKey))
    );
    assert_eq!(sort_texts(&texts(&["a\nb", "c"]), &vec![1, 0], 2), Ok(texts(&["c", "a\nb"])));
}

#[test]
fn no_argument_gives_usage() {
    assert_eq!(
        plan(&texts(&["biglog_sort"])),
        Some(Plan::Usage("Usage: biglog_sort FILE".to_string()))
    );
    assert_eq!(
        plan(&texts(&["prog", "input.log"])),
        Some(Plan::Sort("input.log".to_string()))
    );
    assert_eq!(
        plan(&texts(&["prog", "first", "second"])),
        Some(Plan::Sort("first".to_string()))
    );
    assert_eq!(plan(&Vec::new()), None);
}

#[test]
fn output_line_is_text_and_terminator() {
    let mut out = vec![b'>'];
    write_text(&line(99, "tail"), &mut out);
    assert_eq!(out, b">tail\n".to_vec());
}

#[test]
fn item_budget_is_a_gibibyte_of_128_byte_records() {
    assert_eq!(ITEM_BUDGET, 1024 * 1024 * 1024 / 128);
}

fn scrambled(n: u32, keys: u32) -> Vec<Line> {
    let mut state = 12345u32;
    (0..n)
        .map(|i| {
            state = state.wrapping_mul(1664525).wrapping_add(1013904223);
            Line((state >> 16) % keys, format!("line {}", i))
        })
        .collect()
}

#[test]
fn sort_by_key_is_a_stable_sort() {
    assert_eq!(sort_by_key(sample()), sample_sorted());
    assert_eq!(sort_by_key(Vec::new()), Vec::new());
    assert_eq!(sort_by_key(vec![line(3, "x")]), vec![line(3, "x")]);
    assert_eq!(
        sort_by_key(vec![line(2, "b"), line(2, "a"), line(1, "z")]),
        vec![line(1, "z"), line(2, "b"), line(2, "a")]
    );
    for (n, keys) in [(2u32, 1u32), (3, 2), (64, 5), (1000, 7), (1000, 1000)] {
        let input = scrambled(n, keys);
        let mut expected = scrambled(n, keys);
        expected.sort_by_key(|item| item.0);
        assert_eq!(sort_by_key(input), expected);
    }
}

#[test]
fn sorted_positions_name_every_line_once() {
    assert_eq!(sorted_positions(&sample()), vec![5, 9, 1, 3, 7, 2, 6, 8, 0, 4, 10]);
    assert_eq!(sorted_positions(&Vec::new()), Vec::<usize>::new());
    let input = scrambled(500, 9);
    let mut seen = sorted_positions(&input);
    seen.sort();
    assert_eq!(seen, (0..500).collect::<Vec<usize>>());
}

#[test]
fn large_input_is_sorted_whatever_the_budget() {
    let input = scrambled(2000, 50);
    let mut expected = scrambled(2000, 50);
    expected.sort_by_key(|item| item.0);
    for budget in [1usize, 2, 7, 100, 1999, 2000, 2001] {
        assert_eq!(sort_lines(&input, budget), Ok(expected.clone()));
    }
}
