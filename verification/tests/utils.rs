use huffman_codec::error::Error;
use huffman_codec::leaves::{comes_before, sort_leaves};
use huffman_codec::utils::{
    code_point, copy_name, in_file_to_out_file, inc_bit, out_file_to_in_file, put_u32, read_u32,
    write_u32,
};

#[test]
fn do_read_u32() {
    let bytes = &[0, 0, 0, 1];
    assert_eq!(read_u32(bytes).unwrap(), 1);
    assert!(read_u32(&[0, 0, 0]).is_err());
}

#[test]
fn do_inc_bit() {
    let mut bit = 6;
    assert!(!inc_bit(&mut bit));
    assert_eq!(bit, 7);
    assert!(inc_bit(&mut bit));
    assert_eq!(bit, 0);
}

#[test]
fn read_u32_is_big_endian() {
    assert_eq!(read_u32(&[1, 2, 3, 4]).unwrap(), 0x0102_0304);
    assert_eq!(read_u32(&[255, 255, 255, 255]).unwrap(), u32::MAX);
    assert_eq!(read_u32(&[0, 0, 0, 0]).unwrap(), 0);
    assert_eq!(read_u32(&[0, 0, 1, 0]).unwrap(), 256);
}

#[test]
fn read_u32_wants_exactly_four_bytes() {
    assert!(matches!(read_u32(&[]), Err(Error::Conversion(_, _))));
    assert!(matches!(read_u32(&[1, 2, 3, 4, 5]), Err(Error::Conversion(_, _))));
}

#[test]
fn write_u32_appends_big_endian() {
    let mut out = vec![9u8];
    write_u32(&mut out, 0x0a0b_0c0d);
    assert_eq!(out, vec![9, 10, 11, 12, 13]);
    write_u32(&mut out, u32::MAX);
    assert_eq!(&out[5..], &[255, 255, 255, 255]);
    assert_eq!(read_u32(&out[1..5]).unwrap(), 0x0a0b_0c0d);
}

#[test]
fn put_u32_overwrites_in_place() {
    let mut out = vec![1u8, 2, 3, 4, 5, 6, 7];
    put_u32(&mut out, 2, 0x0100_00ff);
    assert_eq!(out, vec![1, 2, 1, 0, 0, 255, 7]);
}

#[test]
fn inc_bit_counts_up_and_wraps_at_seven() {
    let mut bit = 0u8;
    for expected in 1..8u8 {
        assert!(!inc_bit(&mut bit));
        assert_eq!(bit, expected);
    }
    assert!(inc_bit(&mut bit));
    assert_eq!(bit, 0);
    let mut beyond = 8u8;
    assert!(!inc_bit(&mut beyond));
    assert_eq!(beyond, 9);
}

#[test]
fn code_points() {
    assert_eq!(code_point('a'), 97);
    assert_eq!(code_point('\u{10ffff}'), 0x10ffff);
}

#[test]
fn leaves_sort_heavier_first_then_by_symbol() {
    let table = vec![('a', 1), ('b', 3), ('c', 2), ('d', 3), ('e', 1)];
    assert_eq!(sort_leaves(&table), vec![('b', 3), ('d', 3), ('c', 2), ('a', 1), ('e', 1)]);
    assert_eq!(sort_leaves(&Vec::new()), Vec::<(char, u32)>::new());
    assert!(comes_before(('z', 2), ('a', 1)));
    assert!(comes_before(('a', 1), ('b', 1)));
    assert!(!comes_before(('b', 1), ('a', 1)));
    assert!(comes_before(('a', 1), ('a', 1)));
}

#[test]
fn errors_render_on_one_line() {
    let e = Error::Conversion("expected exactly 4 bytes".to_string(), "no".to_string());
    assert_eq!(e.message(), "[ERROR] - conversion: expected exactly 4 bytes; mapped: no;");
    let e = Error::Heapify("m".to_string(), String::new());
    assert_eq!(e.message(), "[ERROR] - heapify: m; mapped: ;");
    assert_eq!(
        Error::Encoding("a".to_string(), "b".to_string()).message(),
        "[ERROR] - encoding: a; mapped: b;"
    );
    assert_eq!(
        Error::Args("a".to_string(), "b".to_string()).message(),
        "[ERROR] - input args: a; mapped: b;"
    );
    assert_eq!(
        Error::Compress("a".to_string(), "b".to_string()).message(),
        "[ERROR] - compress: a; mapped: b;"
    );
    assert_eq!(
        Error::DeCompress("a".to_string(), "b".to_string()).message(),
        "[ERROR] - decompress: a; mapped: b;"
    );
    assert_eq!(
        Error::Finalizing("a".to_string(), "b".to_string()).message(),
        "[ERROR] - finalizing: a; mapped: b;"
    );
}

#[test]
fn in_to_out_file() {
    let out_file = in_file_to_out_file("test.txt", false);
    assert_eq!(out_file, Some(String::from("test.huf")));
}

#[test]
fn out_to_in_file() {
    let in_file = out_file_to_in_file("test.huf", false);
    assert_eq!(in_file, Some(String::from("test.txt")));
}

#[test]
fn file_that_exists() {
    let out_file = out_file_to_in_file("blank.huf", true);
    assert_eq!(out_file, Some(String::from("blank_copy.txt")));
}

#[test]
fn taken_names_give_way_to_copies() {
    assert_eq!(in_file_to_out_file("dir/notes.txt", true), Some(String::from("dir/notes_copy.huf")));
    assert_eq!(in_file_to_out_file("dir/notes.txt", false), Some(String::from("dir/notes.huf")));
    assert_eq!(in_file_to_out_file("plain", false), Some(String::from("plain.huf")));
    assert_eq!(out_file_to_in_file("a.b.huf", true), Some(String::from("a.b_copy.txt")));
}

#[test]
fn a_path_without_a_file_name_has_no_copy() {
    assert_eq!(in_file_to_out_file("", true), None);
    assert_eq!(in_file_to_out_file("", false), Some(String::new()));
}

#[test]
fn copy_names() {
    assert_eq!(copy_name("blank", "txt"), "blank_copy.txt");
    assert_eq!(copy_name("", "huf"), "_copy.huf");
}
