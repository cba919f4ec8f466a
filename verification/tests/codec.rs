use huffman_codec::error::Error;
use huffman_codec::huffman::Huffman;
use huffman_codec::operations::{compress, decompress};

const FIXTURE_TEXT: &str = "abbcccddddeeeeeffffff";

fn fixture_bytes() -> Vec<u8> {
    vec![
        0, 0, 0, 5, 0, 0, 0, 30, 100, 0, 0, 0, 4, 101, 0, 0, 0, 5, 102, 0, 0, 0, 6, 99, 0, 0, 0, 3,
        97, 0, 0, 0, 1, 98, 0, 0, 0, 2, 0, 0, 0, 3, 247, 191, 13, 64, 213, 170, 2,
    ]
}

fn encoded(text: &str) -> Vec<u8> {
    let mut huf = Huffman::from_str(text);
    huf.create_tree();
    huf.codes();
    huf.encode().unwrap();
    huf.bytes()
}

fn decoded(bytes: &[u8]) -> String {
    let mut huf = Huffman::from_bytes(bytes);
    huf.decode().unwrap();
    huf.data()
}

#[test]
fn encode() {
    let text: &str = "abbcccddddeeeeeffffff";
    let exp = vec![
        0, 0, 0, 5, 0, 0, 0, 30, 100, 0, 0, 0, 4, 101, 0, 0, 0, 5, 102, 0, 0, 0, 6, 99, 0, 0, 0, 3,
        97, 0, 0, 0, 1, 98, 0, 0, 0, 2, 0, 0, 0, 3, 247, 191, 13, 64, 213, 170, 2,
    ];
    let mut huf = Huffman::from_str(text);
    huf.create_tree();
    huf.codes();
    let _ = huf.encode();
    assert_eq!(huf.bytes(), exp);
}

#[test]
fn decode() {
    let data = vec![
        0, 0, 0, 5, 0, 0, 0, 30, 100, 0, 0, 0, 4, 101, 0, 0, 0, 5, 102, 0, 0, 0, 6, 99, 0, 0, 0, 3,
        97, 0, 0, 0, 1, 98, 0, 0, 0, 2, 0, 0, 0, 3, 247, 191, 13, 64, 213, 170, 2,
    ];
    let expected = String::from("abbcccddddeeeeeffffff");
    let mut huf = Huffman::from_bytes(&data);
    let _ = huf.decode();
    assert_eq!(huf.data(), expected);
}

#[test]
fn fixture_round_trip() {
    assert_eq!(encoded(FIXTURE_TEXT), fixture_bytes());
    assert_eq!(decoded(&fixture_bytes()), FIXTURE_TEXT);
}

#[test]
fn single_symbol_round_trip() {
    let bytes = encoded("aaaa");
    assert_eq!(bytes, vec![0, 0, 0, 1, 0, 0, 0, 5, 97, 0, 0, 0, 4, 0, 0, 0, 4, 0]);
    assert_eq!(decoded(&bytes), "aaaa");
}

#[test]
fn single_symbol_ignores_payload() {
    let bytes = vec![0, 0, 0, 1, 0, 0, 0, 5, 122, 0, 0, 0, 3, 0, 0, 0, 0];
    assert_eq!(decoded(&bytes), "zzz");
}

#[test]
fn empty_text_round_trip() {
    let bytes = encoded("");
    assert_eq!(bytes, vec![0u8; 12]);
    assert_eq!(decoded(&bytes), "");
}

#[test]
fn two_symbols_one_bit_each() {
    // 'a' is heavier and enters the heap first; 'b' comes off the front
    // first and becomes the left child.
    let bytes = encoded("aab");
    assert_eq!(
        bytes,
        vec![0, 0, 0, 2, 0, 0, 0, 10, 98, 0, 0, 0, 1, 97, 0, 0, 0, 2, 0, 0, 0, 3, 0b011]
    );
    assert_eq!(decoded(&bytes), "aab");
}

#[test]
fn byte_aligned_stream_has_offset_zero() {
    // eight symbols of one bit each fill one byte exactly
    let text = "abababab";
    let bytes = encoded(text);
    let n = bytes.len();
    assert_eq!(&bytes[n - 5..n - 1], &[0, 0, 0, 0]);
    assert_eq!(bytes.len(), 8 + 10 + 4 + 1);
    assert_eq!(decoded(&bytes), text);
}

#[test]
fn residual_bits_use_the_offset() {
    for extra in 1..8usize {
        let mut text = String::from("abababab");
        for i in 0..extra {
            text.push(if i % 2 == 0 { 'a' } else { 'b' });
        }
        let bytes = encoded(&text);
        let n = bytes.len();
        assert_eq!(&bytes[n - 6..n - 2], &[0, 0, 0, extra as u8]);
        assert_eq!(decoded(&bytes), text);
    }
}

#[test]
fn zero_bits_at_the_end_are_kept() {
    // the last byte holds clear bits only and is written all the same
    let text = "bbbbbbbbbaaaaaaaaaaaaa";
    assert_eq!(decoded(&encoded(text)), text);
    let text = "aaaaaaaaaaaaaab";
    assert_eq!(decoded(&encoded(text)), text);
}

#[test]
fn equal_frequencies_round_trip() {
    for text in ["abcd", "aabbccdd", "abcabcabc", "zyxwvutsrqponmlkjihgfedcba", "hello world", "mississippi"] {
        assert_eq!(decoded(&encoded(text)), text);
    }
}

#[test]
fn latin1_symbols_round_trip() {
    let text = "caf\u{e9} \u{ff}\u{0}\u{e9}";
    assert_eq!(decoded(&encoded(text)), text);
}

#[test]
fn every_byte_symbol_round_trips() {
    let mut text = String::new();
    for b in 0..=255u8 {
        for _ in 0..(b as usize % 7 + 1) {
            text.push(b as char);
        }
    }
    assert_eq!(decoded(&encoded(&text)), text);
}

#[test]
fn many_texts_round_trip() {
    let mut state: u32 = 12345;
    for _ in 0..300 {
        let mut text = String::new();
        state = state.wrapping_mul(1103515245).wrapping_add(12345);
        let len = (state >> 16) % 60;
        state = state.wrapping_mul(1103515245).wrapping_add(12345);
        let spread = (state >> 16) % 9 + 1;
        for _ in 0..len {
            state = state.wrapping_mul(1103515245).wrapping_add(12345);
            text.push((97 + (state >> 16) % spread) as u8 as char);
        }
        assert_eq!(decoded(&encoded(&text)), text);
    }
}

#[test]
fn short_buffer_is_a_conversion_error() {
    for len in 0..12usize {
        let bytes = vec![0u8; len];
        let mut huf = Huffman::from_bytes(&bytes);
        assert!(matches!(huf.decode(), Err(Error::Conversion(_, _))));
        assert_eq!(huf.data(), "");
        assert_eq!(huf.bytes(), bytes);
    }
}

#[test]
fn truncated_table_is_a_conversion_error() {
    let full = fixture_bytes();
    for len in 0..42usize {
        let mut huf = Huffman::from_bytes(&full[..len]);
        assert!(matches!(huf.decode(), Err(Error::Conversion(_, _))));
    }
    let mut huf = Huffman::from_bytes(&full[..42]);
    assert!(huf.decode().is_ok());
    assert_eq!(huf.data(), "");
}

#[test]
fn overflowing_frequencies_are_a_conversion_error() {
    let bytes = vec![
        0, 0, 0, 2, 0, 0, 0, 10, 97, 255, 255, 255, 255, 98, 0, 0, 0, 1, 0, 0, 0, 0,
    ];
    let mut huf = Huffman::from_bytes(&bytes);
    assert!(matches!(huf.decode(), Err(Error::Conversion(_, _))));
}

#[test]
fn table_length_is_rounded_up_to_records() {
    // a table length of 6 asks for two records
    let bytes = vec![
        0, 0, 0, 2, 0, 0, 0, 6, 98, 0, 0, 0, 1, 97, 0, 0, 0, 2, 0, 0, 0, 3, 0b011,
    ];
    assert_eq!(decoded(&bytes), "aab");
}

#[test]
fn large_offset_counts_every_bit() {
    let bytes = vec![
        0, 0, 0, 2, 0, 0, 0, 10, 98, 0, 0, 0, 1, 97, 0, 0, 0, 2, 0, 0, 0, 9, 0b011,
    ];
    assert_eq!(decoded(&bytes), "aabbbbbb");
}

#[test]
fn bits_short_of_a_leaf_yield_nothing() {
    // d: 00, e: 01, f: 10, c: 110, a: 1110, b: 1111; three set bits end
    // halfway down
    let mut bytes = fixture_bytes();
    bytes.truncate(42);
    bytes[41] = 3;
    bytes.push(0b111);
    assert_eq!(decoded(&bytes), "");
}

#[test]
fn encode_without_codes_is_an_encoding_error() {
    let mut huf = Huffman::from_str("abc");
    huf.create_tree();
    assert!(matches!(huf.encode(), Err(Error::Encoding(_, _))));
    assert_eq!(huf.bytes(), Vec::<u8>::new());
}

#[test]
fn wide_symbol_is_an_encoding_error() {
    let mut huf = Huffman::from_str("ab\u{100}");
    huf.create_tree();
    huf.codes();
    assert!(matches!(huf.encode(), Err(Error::Encoding(_, _))));
    assert_eq!(huf.bytes(), Vec::<u8>::new());
}

#[test]
fn decode_twice_appends_again() {
    let mut huf = Huffman::from_bytes(&fixture_bytes());
    huf.decode().unwrap();
    huf.decode().unwrap();
    assert_eq!(huf.data(), format!("{}{}", FIXTURE_TEXT, FIXTURE_TEXT));
}

#[test]
fn create_tree_twice_changes_nothing() {
    let mut huf = Huffman::from_str(FIXTURE_TEXT);
    huf.create_tree();
    huf.create_tree();
    huf.codes();
    huf.encode().unwrap();
    assert_eq!(huf.bytes(), fixture_bytes());
}

#[test]
fn buffers_are_appended_to() {
    let mut huf = Huffman::from_str("caf\u{e9}");
    huf.create_tree();
    huf.codes();
    huf.encode().unwrap();
    let mut out = vec![7u8];
    huf.read_bytes_into(&mut out);
    assert_eq!(out[0], 7);
    assert_eq!(&out[1..], &huf.bytes()[..]);
    let mut text = vec![9u8];
    huf.data_to_bytes(&mut text);
    assert_eq!(text, vec![9, 99, 97, 102, 0xc3, 0xa9]);
}

#[test]
fn compress_gives_the_fixture() {
    assert_eq!(compress(FIXTURE_TEXT).unwrap(), fixture_bytes());
    assert_eq!(decompress(&fixture_bytes()).unwrap(), FIXTURE_TEXT.as_bytes().to_vec());
    assert_eq!(compress("").unwrap(), vec![0u8; 12]);
    assert_eq!(decompress(&[0u8; 12]).unwrap(), Vec::<u8>::new());
}

#[test]
fn compress_rejects_wide_symbols() {
    assert!(matches!(compress("\u{20ac}"), Err(Error::Encoding(_, _))));
    assert!(matches!(compress("abc\u{100}"), Err(Error::Encoding(_, _))));
}

#[test]
fn decompress_rejects_short_buffers() {
    assert!(matches!(decompress(&[]), Err(Error::Conversion(_, _))));
    assert!(matches!(decompress(&[0, 0, 0, 1, 0, 0, 0, 5, 97]), Err(Error::Conversion(_, _))));
}

#[test]
fn decompress_writes_utf8() {
    let bytes = compress("\u{e9}\u{e9}a").unwrap();
    assert_eq!(decompress(&bytes).unwrap(), vec![0xc3, 0xa9, 0xc3, 0xa9, 97]);
}

#[test]
fn root_frequency_is_the_text_length() {
    // the table of "abracadabra": a 5, b 2, r 2, c 1, d 1, written level by
    // level; the frequencies add up to 11
    let bytes = encoded("abracadabra");
    let table_len = u32::from_be_bytes([bytes[4], bytes[5], bytes[6], bytes[7]]) as usize;
    assert_eq!(table_len, 25);
    let mut total = 0u32;
    let mut seen = Vec::new();
    for record in bytes[8..8 + table_len].chunks(5) {
        seen.push((record[0], record[4]));
        total += u32::from_be_bytes([record[1], record[2], record[3], record[4]]);
    }
    assert_eq!(total, 11);
    seen.sort();
    assert_eq!(seen, vec![(b'a', 5), (b'b', 2), (b'c', 1), (b'd', 1), (b'r', 2)]);
}

fn path(bits: &str) -> Vec<bool> {
    bits.chars().map(|c| c == '1').collect()
}

fn with_codes(text: &str) -> Huffman {
    let mut huf = Huffman::from_str(text);
    huf.create_tree();
    huf.codes();
    huf
}

#[test]
fn fixture_codes() {
    let huf = with_codes(FIXTURE_TEXT);
    assert_eq!(huf.get_path('d'), Some(&path("00")));
    assert_eq!(huf.get_path('e'), Some(&path("01")));
    assert_eq!(huf.get_path('f'), Some(&path("10")));
    assert_eq!(huf.get_path('c'), Some(&path("110")));
    assert_eq!(huf.get_path('a'), Some(&path("1110")));
    assert_eq!(huf.get_path('b'), Some(&path("1111")));
    assert_eq!(huf.get_path('g'), None);
    assert_eq!(huf.get_path('\u{100}'), None);
}

#[test]
fn single_symbol_gets_a_one_bit_code() {
    let huf = with_codes("aaaa");
    assert_eq!(huf.get_path('a'), Some(&path("0")));
    assert_eq!(huf.get_path('b'), None);
}

#[test]
fn no_codes_before_generation() {
    let mut huf = Huffman::from_str("abc");
    assert_eq!(huf.get_path('a'), None);
    huf.create_tree();
    assert_eq!(huf.get_path('a'), None);
    huf.codes();
    assert!(huf.get_path('a').is_some());
}

#[test]
fn codes_are_complete_and_prefix_free() {
    let text = "the quick brown fox jumps over the lazy dog";
    let huf = with_codes(text);
    let mut symbols: Vec<char> = text.chars().collect();
    symbols.sort();
    symbols.dedup();
    for b in 0..=255u8 {
        let c = b as char;
        assert_eq!(huf.get_path(c).is_some(), symbols.contains(&c));
    }
    for a in symbols.iter() {
        for b in symbols.iter() {
            if a != b {
                let p = huf.get_path(*a).unwrap();
                let q = huf.get_path(*b).unwrap();
                assert!(!q.starts_with(p));
            }
        }
    }
}

#[test]
fn written_table_gives_the_same_codes() {
    for text in [FIXTURE_TEXT, "mississippi", "aabbccdd", "abcdefgh", "aaaa"] {
        let first = with_codes(text);
        let mut source = with_codes(text);
        source.encode().unwrap();
        let mut second = Huffman::from_bytes(&source.bytes());
        second.create_tree();
        second.codes();
        for b in 0..=255u8 {
            assert_eq!(first.get_path(b as char), second.get_path(b as char));
        }
    }
}

fn check(text: &str, bytes: &[u8]) {
    assert_eq!(encoded(text), bytes.to_vec());
    assert_eq!(decoded(bytes), text);
}

#[test]
fn more_fixtures() {
    check("mississippi", &[0, 0, 0, 4, 0, 0, 0, 20, 105, 0, 0, 0, 4, 115, 0, 0, 0, 4, 109, 0, 0, 0, 1, 112, 0, 0, 0, 2, 0, 0, 0, 5, 241, 94, 11]);
    check("aabbccdd", &[0, 0, 0, 3, 0, 0, 0, 20, 97, 0, 0, 0, 2, 98, 0, 0, 0, 2, 99, 0, 0, 0, 2, 100, 0, 0, 0, 2, 0, 0, 0, 0, 160, 245]);
    check("abcdefgh", &[0, 0, 0, 4, 0, 0, 0, 40, 97, 0, 0, 0, 1, 98, 0, 0, 0, 1, 99, 0, 0, 0, 1, 100, 0, 0, 0, 1, 101, 0, 0, 0, 1, 102, 0, 0, 0, 1, 103, 0, 0, 0, 1, 104, 0, 0, 0, 1, 0, 0, 0, 0, 160, 156, 238]);
    check("hello world", &[0, 0, 0, 5, 0, 0, 0, 40, 108, 0, 0, 0, 3, 100, 0, 0, 0, 1, 119, 0, 0, 0, 1, 101, 0, 0, 0, 1, 104, 0, 0, 0, 1, 111, 0, 0, 0, 2, 32, 0, 0, 0, 1, 114, 0, 0, 0, 1, 0, 0, 0, 0, 86, 237, 184, 15]);
    check("abracadabra", &[0, 0, 0, 4, 0, 0, 0, 25, 97, 0, 0, 0, 5, 99, 0, 0, 0, 1, 100, 0, 0, 0, 1, 114, 0, 0, 0, 2, 98, 0, 0, 0, 2, 0, 0, 0, 7, 62, 81, 31]);
    check("aaaaaaaabbbbccd", &[0, 0, 0, 4, 0, 0, 0, 20, 97, 0, 0, 0, 8, 98, 0, 0, 0, 4, 100, 0, 0, 0, 1, 99, 0, 0, 0, 2, 0, 0, 0, 1, 255, 170, 36, 0]);
    check("\u{0}\u{ff}\u{0}\u{ff}\u{7}", &[0, 0, 0, 3, 0, 0, 0, 15, 0, 0, 0, 0, 2, 7, 0, 0, 0, 1, 255, 0, 0, 0, 2, 0, 0, 0, 0, 118]);
    check("abcdefghijbccdddeeeeffffffgggggghhhhhhhiiiiiiiijjjjjjjjj", &[0, 0, 0, 6, 0, 0, 0, 50, 106, 0, 0, 0, 10, 103, 0, 0, 0, 7, 102, 0, 0, 0, 7, 104, 0, 0, 0, 8, 105, 0, 0, 0, 9, 99, 0, 0, 0, 3, 100, 0, 0, 0, 4, 101, 0, 0, 0, 5, 97, 0, 0, 0, 1, 98, 0, 0, 0, 2, 0, 0, 0, 0, 74, 203, 125, 220, 161, 69, 238, 238, 255, 63, 73, 18, 219, 182, 219, 182, 237, 182, 109, 27, 0, 0]);
}

fn code_cost(text: &str) -> usize {
    let huf = with_codes(text);
    text.chars().map(|c| huf.get_path(c).unwrap().len()).sum()
}

#[test]
fn codes_are_as_short_as_can_be() {
    // frequencies 1 to 6: 51 bits; frequencies 1 to 10: 173 bits
    assert_eq!(code_cost(FIXTURE_TEXT), 51);
    let mut text = String::new();
    for i in 0..10u8 {
        for _ in 0..=i {
            text.push((b'a' + i) as char);
        }
    }
    assert_eq!(code_cost(&text), 173);
    assert_eq!(code_cost("aab"), 3);
    assert_eq!(code_cost("abcd"), 8);
}

#[test]
fn every_code_has_a_bit() {
    for text in ["a", "ab", "aab", FIXTURE_TEXT, "mississippi"] {
        let huf = with_codes(text);
        for c in text.chars() {
            assert!(!huf.get_path(c).unwrap().is_empty());
        }
    }
}

#[test]
fn no_simple_code_is_shorter() {
    // a fixed-length code for the six symbols of the fixture takes three
    // bits a symbol
    assert!(code_cost(FIXTURE_TEXT) <= 3 * FIXTURE_TEXT.len());
    // the best code for two symbols takes one bit a symbol
    assert_eq!(code_cost("abababab"), 8);
}
