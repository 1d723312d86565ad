use biglog_sort::keyboard::{
    get_device_list, get_modifier_keys, is_key_press, lines_of, modifier_key, read_device_line,
    ListingError, ModifierError, PressScanner,
};
use biglog_sort::text::{chars_of, find, is_whitespace, same_chars, split, split_whitespace};

fn chars(text: &str) -> Vec<char> {
    text.chars().collect()
}

fn words(items: &[&str]) -> Vec<Vec<char>> {
    items.iter().map(|s| chars(s)).collect()
}

fn keys(items: &[&str]) -> Vec<String> {
    items.iter().map(|s| s.to_string()).collect()
}

const LISTING: &str = "\u{23a1} Virtual core pointer                    \tid=2\t[master pointer  (3)]
\u{239c}   \u{21b3} Virtual core XTEST pointer              \tid=4\t[slave  pointer  (2)]
\u{23a3} Virtual core keyboard                   \tid=3\t[master keyboard (2)]
    \u{21b3} Virtual core XTEST keyboard             \tid=5\t[slave  keyboard (3)]
    \u{21b3} Power Button                            \tid=6\t[slave  keyboard (3)]
    \u{21b3} AT Set 2 keyboard                       \tid=11\t[slave  keyboard (3)]
";

const KEY_TABLE: &str = "There are 7 KeySyms per KeyCode; KeyCodes range from 8 to 255.

    KeyCode\tKeysym (Keysym)\t...
    Value  \tValue   (Name) \t...

     37    \t0xffe3 (Control_L)\t0x0000 (NoSymbol)\t0xffe3 (Control_L)\t
     38    \t0x0061 (a)\t0x0041 (A)\t0x0061 (a)\t0x0041 (A)\t
     50    \t0xffe1 (Shift_L)\t0x0000 (NoSymbol)\t0xffe1 (Shift_L)\t
     62    \t0xffe2 (shift_r)\t
     64    \t0xffe9 (Alt_L)\t0xffe7 (Meta_L)\t0xffe9 (Alt_L)\t0xffe7 (Meta_L)\t
     66    \t0xffe5 (Caps_Lock)\t0x0000 (NoSymbol)\t0xffe5 (Caps_Lock)\t
    105    \t0xffe4 (CONTROL_R)\t
    108    \t0xffea (Alt_R)\t0xffe8 (Meta_R)\t
    133    \t0xffeb (Super_L)\t
    200    \t0x0000 (Shift_Lock)\t
";

#[test]
fn text_is_read_as_characters() {
    assert_eq!(chars_of("a\u{21b3}b"), vec!['a', '\u{21b3}', 'b']);
    assert_eq!(chars_of(""), Vec::<char>::new());
}

#[test]
fn white_space_is_the_unicode_property() {
    for c in [' ', '\t', '\n', '\u{b}', '\u{c}', '\r', '\u{85}', '\u{a0}', '\u{1680}', '\u{2000}',
        '\u{200a}', '\u{2028}', '\u{2029}', '\u{202f}', '\u{205f}', '\u{3000}']
    {
        assert!(is_whitespace(c));
    }
    for c in ['a', '0', '\u{8}', '\u{e}', '\u{1f}', '\u{200b}', '\u{feff}', '\u{180e}', '\u{21b3}'] {
        assert!(!is_whitespace(c));
    }
    for code in 0..0x3100u32 {
        if let Some(c) = char::from_u32(code) {
            assert_eq!(is_whitespace(c), c.is_whitespace());
        }
    }
}

#[test]
fn split_keeps_empty_pieces() {
    assert_eq!(split(&chars("a,b,,c,"), ','), words(&["a", "b", "", "c", ""]));
    assert_eq!(split(&chars(""), ','), words(&[""]));
    assert_eq!(split(&chars(","), ','), words(&["", ""]));
    assert_eq!(split(&chars("abc"), ','), words(&["abc"]));
}

#[test]
fn fields_are_stretches_without_white_space() {
    assert_eq!(split_whitespace(&chars("  key press \t 38\n")), words(&["key", "press", "38"]));
    assert_eq!(split_whitespace(&chars("one")), words(&["one"]));
    assert_eq!(split_whitespace(&chars(" \t ")), Vec::<Vec<char>>::new());
    assert_eq!(split_whitespace(&chars("")), Vec::<Vec<char>>::new());
    assert_eq!(split_whitespace(&chars("a\u{3000}b")), words(&["a", "b"]));
}

#[test]
fn find_gives_the_first_place() {
    assert_eq!(find(&chars("abcabc"), &chars("bc")), Some(1));
    assert_eq!(find(&chars("abcabc"), &chars("abc")), Some(0));
    assert_eq!(find(&chars("abcabc"), &chars("cab")), Some(2));
    assert_eq!(find(&chars("abcabc"), &chars("cb")), None);
    assert_eq!(find(&chars("ab"), &chars("abc")), None);
    assert_eq!(find(&chars("abc"), &chars("")), Some(0));
    assert_eq!(find(&chars(""), &chars("")), Some(0));
    assert_eq!(find(&chars("aab"), &chars("ab")), Some(1));
}

#[test]
fn same_chars_compares_texts() {
    assert!(same_chars(&chars("press"), &chars("press")));
    assert!(!same_chars(&chars("press"), &chars("presS")));
    assert!(!same_chars(&chars("press"), &chars("pres")));
    assert!(same_chars(&chars(""), &chars("")));
}

#[test]
fn keyboards_are_listed_by_id() {
    assert_eq!(get_device_list(LISTING), Ok(vec![5, 6, 11]));
    assert_eq!(get_device_list(""), Ok(Vec::new()));
    assert_eq!(get_device_list("no devices\nat all"), Ok(Vec::new()));
}

#[test]
fn device_line_is_read_behind_the_marker() {
    let line = chars("    \u{21b3} AT keyboard   \tid=11\t[slave  keyboard (3)]");
    assert_eq!(read_device_line(&line), Some(Ok(11)));
    let pointer = chars("    \u{21b3} Mouse   \tid=9\t[slave  pointer (2)]");
    assert_eq!(read_device_line(&pointer), None);
    let two_bytes_twice = chars("\u{e9}\u{e9} id=2147483647 [slave  keyboard (3)]");
    assert_eq!(read_device_line(&two_bytes_twice), Some(Ok(2147483647)));
    let zeros = chars("\u{21b3} id=0007x [slave  keyboard (3)]");
    assert_eq!(read_device_line(&zeros), Some(Ok(7)));
}

#[test]
fn device_line_without_id_fails() {
    assert_eq!(
        read_device_line(&chars("\u{21b3} keyboard [slave  keyboard (3)]")),
        Some(Err(ListingError::MissingId))
    );
    assert_eq!(
        get_device_list("\u{21b3} a id=5 [slave  keyboard (3)]\n[slave  keyboard (3)]\n"),
        Err(ListingError::MissingId)
    );
}

#[test]
fn device_line_with_unreadable_id_fails() {
    let plain = chars("x id=7 [slave  keyboard (3)]");
    assert_eq!(read_device_line(&plain), Some(Err(ListingError::BadId)));
    let nested = chars("\u{239c}   \u{21b3} kbd id=12\t[slave  keyboard (3)]");
    assert_eq!(read_device_line(&nested), Some(Err(ListingError::BadId)));
    let large = chars("\u{21b3} id=2147483648 [slave  keyboard (3)]");
    assert_eq!(read_device_line(&large), Some(Err(ListingError::BadId)));
    let huge = chars("\u{21b3} id=99999999999999999999999 [slave  keyboard (3)]");
    assert_eq!(read_device_line(&huge), Some(Err(ListingError::BadId)));
    let at_end = chars("[slave  keyboard (3)] \u{21b3}\u{21b3} id=");
    assert_eq!(read_device_line(&at_end), Some(Err(ListingError::BadId)));
    assert_eq!(
        get_device_list("\u{21b3} id=4 [slave  keyboard]\n\u{21b3} id=x [slave  keyboard]\n"),
        Err(ListingError::BadId)
    );
}

#[test]
fn lines_end_at_line_feeds() {
    assert_eq!(lines_of("a\nb\r\n\nc"), words(&["a", "b", "", "c"]));
    assert_eq!(lines_of("a\n"), words(&["a"]));
    assert_eq!(lines_of("a\r"), words(&["a\r"]));
    assert_eq!(lines_of("\r\n"), words(&[""]));
    assert_eq!(lines_of(""), Vec::<Vec<char>>::new());
    assert_eq!(lines_of("a\r\r\n"), words(&["a\r"]));
}

#[test]
fn modifier_keys_are_the_codes_of_matching_lines() {
    assert_eq!(
        get_modifier_keys(KEY_TABLE),
        Ok(keys(&["37", "50", "62", "64", "66", "105", "108"]))
    );
    assert_eq!(get_modifier_keys(""), Ok(Vec::new()));
    assert_eq!(get_modifier_keys("nothing here\n"), Ok(Vec::new()));
    assert_eq!(get_modifier_keys("  9 (Alt_L)\r\n 10 (x)\r\n"), Ok(keys(&["9"])));
    assert_eq!(get_modifier_keys("xshift_l\nshift_lx\nshift_l"), Ok(keys(&["shift_l"])));
}

#[test]
fn modifier_key_is_the_first_field() {
    assert_eq!(modifier_key(&chars("  37  (Control_L)"), true), Some(Ok("37".to_string())));
    assert_eq!(modifier_key(&chars("  37  (Control_L)"), false), None);
    assert_eq!(modifier_key(&chars("   "), true), Some(Err(ModifierError::NoField)));
    assert_eq!(modifier_key(&chars(""), false), None);
}

#[test]
fn presses_of_other_keys_count() {
    let modifiers = keys(&["37", "50"]);
    assert!(is_key_press(&chars("key press   38 "), &modifiers));
    assert!(!is_key_press(&chars("key press   50 "), &modifiers));
    assert!(!is_key_press(&chars("key release 38 "), &modifiers));
    assert!(!is_key_press(&chars("key press"), &modifiers));
    assert!(!is_key_press(&chars(""), &modifiers));
    assert!(is_key_press(&chars("key press 50 extra"), &Vec::new()));
    assert!(is_key_press(&chars("x press 3"), &modifiers));
}

#[test]
fn scanner_counts_at_the_end_of_a_line() {
    let modifiers = keys(&["37", "50"]);
    let mut scanner = PressScanner::new();
    let mut count = 0;
    for byte in b"key press   38 \nkey release 38 \nkey press   37 \nkey press   9\nkey press 1" {
        if scanner.feed(*byte, &modifiers) {
            count += 1;
        }
    }
    assert_eq!(count, 2);
    assert!(scanner.feed(b'\n', &modifiers));
    assert!(!scanner.feed(b'\n', &modifiers));
}

#[test]
fn scanner_reads_bytes_as_their_codes() {
    let modifiers = keys(&["\u{e9}"]);
    let mut scanner = PressScanner::new();
    let mut seen = Vec::new();
    for byte in [b'k', b' ', b'p', b'r', b'e', b's', b's', 0xa0, 0xe9, b'\n'] {
        seen.push(scanner.feed(byte, &modifiers));
    }
    assert_eq!(seen.last(), Some(&false));
    let mut other = PressScanner::new();
    let mut last = false;
    for byte in [b'k', b' ', b'p', b'r', b'e', b's', b's', 0xa0, 0xea, b'\n'] {
        last = other.feed(byte, &modifiers);
    }
    assert!(last);
}
