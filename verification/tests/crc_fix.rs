use biglog_sort::crcfix::{
    crack_crc, get_crcdata, replace_nbytes, take_step, window_at, CrcData, ScanError, Step,
};

fn header(width: u32, height: u32, crc_val: u32) -> CrcData {
    CrcData {
        type_str: *b"IHDR",
        width,
        height,
        bits: 8,
        color_type: 6,
        compr_method: 0,
        filter_method: 0,
        interlace_method: 0,
        crc_val,
    }
}

fn blank() -> CrcData {
    CrcData {
        type_str: [0; 4],
        width: 0,
        height: 0,
        bits: 0,
        color_type: 0,
        compr_method: 7,
        filter_method: 9,
        interlace_method: 5,
        crc_val: 0x0bad_cafe,
    }
}

fn png_start(stored_crc: [u8; 4], len: usize) -> Vec<u8> {
    let mut data = vec![137u8, 80, 78, 71, 13, 10, 26, 10];
    data.extend_from_slice(&[0, 0, 0, 13]);
    data.extend_from_slice(b"IHDR");
    data.extend_from_slice(&[0, 0, 0, 1, 0, 0, 0, 1, 8, 6, 0, 0, 0]);
    data.extend_from_slice(&stored_crc);
    data.resize(len, 0);
    data
}

#[test]
fn header_bytes_are_type_sizes_and_flags() {
    let data = CrcData {
        type_str: *b"IHDR",
        width: 0x0102_0304,
        height: 0x0a0b_0c0d,
        bits: 8,
        color_type: 6,
        compr_method: 1,
        filter_method: 2,
        interlace_method: 3,
        crc_val: 0,
    };
    assert_eq!(
        data.as_bytes(),
        vec![b'I', b'H', b'D', b'R', 1, 2, 3, 4, 10, 11, 12, 13, 8, 6, 1, 2, 3]
    );
}

#[test]
fn stored_checksum_is_compared() {
    let data = header(1, 1, 0x1f15_c489);
    assert!(data.crc_matches(0x1f15_c489));
    assert!(!data.crc_matches(0x1f15_c488));
    assert_eq!(crc::crc32::checksum_ieee(&data.as_bytes()), 0x1f15_c489);
}

#[test]
fn replace_nbytes_overwrites_in_place() {
    let mut src = vec![1u8, 2, 3, 4, 5, 6];
    replace_nbytes(&mut src, 2, &[9, 8, 7]);
    assert_eq!(src, vec![1, 2, 9, 8, 7, 6]);
    replace_nbytes(&mut src, 0, &[0]);
    assert_eq!(src, vec![0, 2, 9, 8, 7, 6]);
    replace_nbytes(&mut src, 4, &[5, 5]);
    assert_eq!(src, vec![0, 2, 9, 8, 5, 5]);
    replace_nbytes(&mut src, 100, &[]);
    assert_eq!(src, vec![0, 2, 9, 8, 5, 5]);
}

#[test]
fn crack_finds_the_width() {
    let mut data = header(999, 1, 0x1f15_c489);
    assert_eq!(crack_crc(&mut data), Ok(()));
    assert_eq!((data.width, data.height), (1, 1));

    let crc_val = crc::crc32::checksum_ieee(&header(8191, 600, 0).as_bytes());
    let mut wide = header(5, 600, crc_val);
    assert_eq!(crack_crc(&mut wide), Ok(()));
    assert_eq!((wide.width, wide.height, wide.crc_val), (8191, 600, crc_val));
}

#[test]
fn crack_keeps_a_fitting_header() {
    let crc_val = crc::crc32::checksum_ieee(&header(37, 41, 0).as_bytes());
    let mut data = header(37, 41, crc_val);
    assert_eq!(crack_crc(&mut data), Ok(()));
    assert_eq!((data.width, data.height), (37, 41));
}

#[test]
fn crack_finds_the_height_with_the_width_as_it_was() {
    let crc_val = crc::crc32::checksum_ieee(&header(9000, 77, 0).as_bytes());
    let mut data = header(9000, 3, crc_val);
    assert_eq!(crack_crc(&mut data), Ok(()));
    assert_eq!((data.width, data.height), (9000, 77));
}

#[test]
fn crack_gives_up_beyond_the_limit() {
    let crc_val = crc::crc32::checksum_ieee(&header(9000, 8192, 0).as_bytes());
    let mut data = header(9000, 3, crc_val);
    assert_eq!(crack_crc(&mut data), Err(()));
    assert_eq!((data.width, data.height, data.crc_val), (9000, 8191, crc_val));

    let zero = crc::crc32::checksum_ieee(&header(0, 0, 0).as_bytes());
    let mut none = header(0, 0, zero);
    assert_eq!(crack_crc(&mut none), Err(()));
    assert_eq!((none.width, none.height), (0, 8191));
}

#[test]
fn steps_are_recorded() {
    let mut data = blank();
    data.record(&Step::ChunkBegin { used: 16, type_str: *b"IHDR" });
    assert_eq!(data.type_str, *b"IHDR");
    data.record(&Step::Header {
        used: 13,
        width: 640,
        height: 480,
        bit_depth: 16,
        color_type: 2,
        interlaced: true,
    });
    assert_eq!((data.width, data.height, data.bits, data.color_type), (640, 480, 16, 2));
    assert_eq!(data.interlace_method, 1);
    data.record(&Step::CrcMismatch { crc_val: 0x0102_0304 });
    assert_eq!(data.crc_val, 0x0102_0304);
    data.record(&Step::Other { used: 4 });
    data.record(&Step::Failed { message: "x".to_string() });
    assert_eq!((data.width, data.crc_val, data.compr_method, data.filter_method), (640, 0x0102_0304, 7, 9));
}

#[test]
fn steps_say_how_far_to_move_on() {
    assert_eq!(Step::ChunkBegin { used: 16, type_str: *b"IDAT" }.advance(), 16);
    assert_eq!(
        Step::Header { used: 13, width: 1, height: 1, bit_depth: 8, color_type: 0, interlaced: false }
            .advance(),
        13
    );
    assert_eq!(Step::Other { used: 0 }.advance(), 0);
    assert_eq!(Step::CrcMismatch { crc_val: 0 }.advance(), 1);
    assert_eq!(Step::Failed { message: String::new() }.advance(), 0);
}

#[test]
fn header_is_collected_with_the_stored_checksum() {
    let data = png_start([0xde, 0xad, 0xbe, 0xef], 3100);
    let mut found = blank();
    assert!(get_crcdata(&data, &mut found).is_ok());
    assert_eq!(found.type_str, *b"IHDR");
    assert_eq!((found.width, found.height), (1, 1));
    assert_eq!((found.bits, found.color_type, found.interlace_method), (8, 6, 0));
    assert_eq!((found.compr_method, found.filter_method), (7, 9));
    assert_eq!(found.crc_val, 0xdead_beef);
}

#[test]
fn collected_header_can_be_cracked() {
    let mut data = png_start([0x1f, 0x15, 0xc4, 0x89], 3100);
    replace_nbytes(&mut data, 16, &[0, 0, 2, 0]);
    let mut found = blank();
    assert!(get_crcdata(&data, &mut found).is_ok());
    assert_eq!((found.width, found.crc_val), (512, 0x1f15_c489));
    found.compr_method = 0;
    found.filter_method = 0;
    assert_eq!(crack_crc(&mut found), Ok(()));
    assert_eq!((found.width, found.height), (1, 1));
}

#[test]
fn fitting_checksum_is_not_collected() {
    let data = png_start([0x1f, 0x15, 0xc4, 0x89], 3000);
    let mut found = blank();
    assert!(get_crcdata(&data, &mut found).is_ok());
    assert_eq!((found.width, found.height, found.crc_val), (1, 1, 0x0bad_cafe));
}

#[test]
fn short_input_is_refused() {
    let mut found = blank();
    let short = png_start([0, 0, 0, 0], 999);
    assert!(matches!(get_crcdata(&short, &mut found), Err(ScanError::ShortInput)));
    assert_eq!(found.type_str, [0; 4]);
    assert!(matches!(get_crcdata(&[], &mut found), Err(ScanError::ShortInput)));

    let one_window = png_start([0, 0, 0, 0], 1000);
    assert!(matches!(get_crcdata(&one_window, &mut found), Err(ScanError::ShortInput)));
    assert_eq!(found.type_str, *b"IHDR");
    assert_eq!(found.width, 0);
}

#[test]
fn decoder_failure_is_reported() {
    let mut found = blank();
    let zeros = vec![0u8; 3000];
    match get_crcdata(&zeros, &mut found) {
        Err(ScanError::Decoder(message)) => assert_eq!(message, "invalid signature"),
        other => panic!("unexpected result {:?}", other),
    }
    assert_eq!(found.type_str, [0; 4]);
}

#[test]
fn window_is_a_thousand_bytes_from_the_position() {
    let data: Vec<u8> = (0..2500u32).map(|i| (i % 251) as u8).collect();
    assert_eq!(window_at(&data, 0), Some(&data[0..1000]));
    assert_eq!(window_at(&data, 16), Some(&data[16..1016]));
    assert_eq!(window_at(&data, 1500), Some(&data[1500..2500]));
    assert_eq!(window_at(&data, 1501), None);
    assert_eq!(window_at(&data, usize::MAX), None);
    assert_eq!(window_at(&data[..999], 0), None);
    assert_eq!(window_at(&[], 0), None);
}

#[test]
fn step_is_recorded_and_gives_the_next_position() {
    let mut data = blank();
    let begin = Step::ChunkBegin { used: 16, type_str: *b"IHDR" };
    assert!(matches!(take_step(&mut data, 0, begin), Ok(16)));
    assert_eq!(data.type_str, *b"IHDR");
    let head = Step::Header {
        used: 13,
        width: 3,
        height: 4,
        bit_depth: 8,
        color_type: 2,
        interlaced: false,
    };
    assert!(matches!(take_step(&mut data, 16, head), Ok(29)));
    assert_eq!((data.width, data.height, data.interlace_method), (3, 4, 0));
    assert!(matches!(take_step(&mut data, 29, Step::CrcMismatch { crc_val: 77 }), Ok(30)));
    assert_eq!(data.crc_val, 77);
    assert!(matches!(take_step(&mut data, 30, Step::Other { used: 4 }), Ok(34)));
    assert_eq!((data.width, data.crc_val), (3, 77));
}

#[test]
fn failed_step_ends_the_collecting() {
    let mut data = blank();
    let failed = Step::Failed { message: "invalid signature".to_string() };
    match take_step(&mut data, 5, failed) {
        Err(ScanError::Decoder(message)) => assert_eq!(message, "invalid signature"),
        other => panic!("unexpected result {:?}", other),
    }
    assert_eq!((data.type_str, data.width, data.crc_val), ([0; 4], 0, 0x0bad_cafe));
}
