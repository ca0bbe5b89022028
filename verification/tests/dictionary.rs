use dsp::conf::Compression;
use dsp::error::Error;
use dsp::interner::{VInt, IS};
use dsp::text::text_before;

fn column(values: &[&str]) -> IS {
    let mut is = IS::new();
    for v in values {
        is.add_s(v.to_string());
    }
    is
}

fn keys(is: &IS) -> Vec<String> {
    (0..is.dictionary_len()).map(|k| is.key(k).unwrap().clone()).collect()
}

#[test]
fn new_column_is_empty_and_sorted() {
    let is = IS::new();
    assert_eq!(is.len(), 0);
    assert_eq!(is.dictionary_len(), 0);
    assert!(is.sorted());
    assert!(is.key(0).is_none());
}

#[test]
fn ids_follow_insertion_until_sorted() {
    let mut is = column(&["b", "a", "b"]);
    assert_eq!(is.len(), 3);
    assert_eq!(is.indexes(), &vec![0, 1, 0]);
    assert_eq!(keys(&is), vec!["b", "a"]);
    assert!(!is.sorted());
    is.sort();
    assert!(is.sorted());
    assert_eq!(is.indexes(), &vec![1, 0, 1]);
    assert_eq!(keys(&is), vec!["a", "b"]);
}

#[test]
fn known_string_keeps_the_column_sorted() {
    let mut is = column(&["x", "y"]);
    is.sort();
    is.add_s("x".to_string());
    assert!(is.sorted());
    is.add_s("a".to_string());
    assert!(!is.sorted());
}

#[test]
fn sorted_ids_are_contiguous_and_ordered() {
    let mut is = column(&["pear", "apple", "fig", "apple", "pear", "kiwi"]);
    is.sort();
    assert_eq!(keys(&is), vec!["apple", "fig", "kiwi", "pear"]);
    assert_eq!(is.indexes(), &vec![3, 0, 1, 0, 3, 2]);
    let d = is.dictionary_len();
    for id in is.indexes() {
        assert!(*id < d);
    }
    for k in 0..d {
        assert!(is.indexes().contains(&k));
    }
}

#[test]
fn order_is_by_code_point_and_prefix_first() {
    let mut is = column(&["b", "ab", "a", "B", "é", ""]);
    is.sort();
    assert_eq!(keys(&is), vec!["", "B", "a", "ab", "b", "é"]);
}

#[test]
fn append_puts_other_rows_behind_and_empties_other() {
    let mut a = column(&["x", "y"]);
    let mut b = column(&["z", "x", "z"]);
    a.append(&mut b);
    assert_eq!(a.len(), 5);
    assert_eq!(b.len(), 0);
    assert_eq!(b.dictionary_len(), 0);
    assert_eq!(keys(&a), vec!["x", "y", "z"]);
    assert_eq!(a.indexes(), &vec![0, 1, 2, 0, 2]);
    b.add_s("again".to_string());
    assert_eq!(b.len(), 1);
}

#[test]
fn append_of_known_strings_keeps_sorted() {
    let mut a = column(&["x", "y"]);
    a.sort();
    let mut b = column(&["y"]);
    a.append(&mut b);
    assert!(a.sorted());
    let mut c = column(&["a"]);
    a.append(&mut c);
    assert!(!a.sorted());
}

#[test]
fn sort_and_permute_moves_rows() {
    let mut is = column(&["b", "a", "c"]);
    is.sort_and_permute(&[1, 0, 2]);
    assert_eq!(keys(&is), vec!["a", "b", "c"]);
    // row i holds what row permutation[i] held: a, b, c
    assert_eq!(is.indexes(), &vec![0, 1, 2]);
    let mut other = column(&["b", "a", "c", "a"]);
    other.sort_and_permute(&[3, 2, 1, 0]);
    assert_eq!(other.indexes(), &vec![0, 2, 0, 1]);
}

#[test]
fn sort_and_permute_takes_any_list_of_rows() {
    let mut is = column(&["b", "a", "c"]);
    is.sort_and_permute(&[0, 0, 2]);
    assert_eq!(is.len(), 3);
    assert_eq!(keys(&is), vec!["a", "b", "c"]);
    assert_eq!(is.indexes(), &vec![1, 1, 2]);
    assert!(is.sorted());
    assert_eq!(is.positions().unwrap(), vec![vec![], vec![0, 1], vec![2]]);
}

#[test]
fn permutation_keeps_the_rows_of_each_string() {
    let values = ["b", "a", "b", "c", "a", "b"];
    let mut is = column(&values);
    is.sort_and_permute(&[5, 3, 1, 0, 2, 4]);
    let rows: Vec<String> = is.indexes().iter().map(|i| is.key(*i).unwrap().clone()).collect();
    assert_eq!(rows, vec!["b", "c", "a", "b", "b", "a"]);
    for s in ["a", "b", "c"] {
        assert_eq!(
            rows.iter().filter(|r| *r == s).count(),
            values.iter().filter(|v| **v == s).count()
        );
    }
}

#[test]
fn positions_list_rows_per_id() {
    let mut is = column(&["b", "a", "b", "c", "a"]);
    is.sort();
    let lists = is.positions().unwrap();
    assert_eq!(lists, vec![vec![1, 4], vec![0, 2], vec![3]]);
    let total: usize = lists.iter().map(|l| l.len()).sum();
    assert_eq!(total, is.len());
    for row in 0..is.len() as i32 {
        assert_eq!(lists.iter().filter(|l| l.contains(&row)).count(), 1);
    }
}

#[test]
fn width_holds_the_largest_id() {
    assert_eq!(VInt::new(0).size, 1);
    assert_eq!(VInt::new(1).size, 1);
    assert_eq!(VInt::new(255).size, 1);
    assert_eq!(VInt::new(256).size, 1);
    assert_eq!(VInt::new(257).size, 2);
    assert_eq!(VInt::new(65536).size, 2);
    assert_eq!(VInt::new(65537).size, 3);
    assert_eq!(VInt::new(0x100_0000).size, 3);
    assert_eq!(VInt::new(0x100_0001).size, 4);
    assert_eq!(VInt::new(0xFFFF_FFFF).size, 4);
    assert_eq!(VInt::new(0x1_0000_0000).size, 4);
    assert_eq!(VInt::new(0x1_0000_0001).size, 5);
    assert_eq!(VInt::new(usize::MAX).size, 8);
}

#[test]
fn dictionary_of_256_strings_has_one_byte_ids() {
    let mut is = IS::new();
    for i in 0..256 {
        is.add_s(format!("{:03}", i));
    }
    let bitmaps: Vec<Vec<i32>> = (0..256).map(|i| vec![i]).collect();
    let mut out = Vec::new();
    is.write(&bitmaps, Compression::Uncompressed, &mut out).unwrap();
    // layout version, table head, 256 offsets, 256 items of a marker and three bytes
    let ids = 1 + 10 + 256 * 4 + 256 * 7;
    assert_eq!(&out[ids..ids + 2], &[0, 1]);
    assert_eq!(&out[ids + 2..ids + 6], &[0, 0, 1, 3]);
    assert_eq!(out[ids + 6], 0);
    assert_eq!(out[ids + 6 + 255], 255);
    assert_eq!(&out[ids + 6 + 256..ids + 6 + 259], &[0, 0, 0]);
}

#[test]
fn column_filled_in_order_is_written_unsorted() {
    let is = column(&["a", "b", "a", "a", "b"]);
    assert!(!is.sorted());
    assert!(is.in_order());
    let mut out = Vec::new();
    is.write(&vec![vec![1], vec![2]], Compression::Uncompressed, &mut out).unwrap();
    let expected: Vec<u8> = vec![
        0, 1, 1, //
        0, 0, 0, 0x16, 0, 0, 0, 2, //
        0, 0, 0, 5, 0, 0, 0, 0x0A, //
        0, 0, 0, 0, 0x61, 0, 0, 0, 0, 0x62, //
        0, 1, 0, 0, 0, 8, //
        0, 1, 0, 0, 1, //
        0, 0, 0,
    ];
    assert_eq!(&out[..43], &expected[..]);
    assert_eq!(&out[43..45], &[1, 0]);
    let mut sorted = column(&["a", "b", "a", "a", "b"]);
    sorted.sort();
    let mut same = Vec::new();
    sorted.write(&vec![vec![1], vec![2]], Compression::Uncompressed, &mut same).unwrap();
    assert_eq!(out, same);
}

#[test]
fn order_of_a_dictionary_is_found_out() {
    assert!(IS::new().in_order());
    assert!(column(&["only"]).in_order());
    assert!(column(&["a", "ab", "b", "é"]).in_order());
    assert!(!column(&["a", "a", "b", "ab"]).in_order());
    assert!(!column(&["b", "a"]).in_order());
    assert!(!column(&["a", "c", "b"]).in_order());
}

#[test]
fn ids_are_big_endian_plain_and_little_endian_packed() {
    let mut out = Vec::new();
    VInt { size: 1 }.write_value(&mut out, 0xAB, Compression::Uncompressed);
    VInt { size: 2 }.write_value(&mut out, 0x0102, Compression::Uncompressed);
    VInt { size: 2 }.write_value(&mut out, 0x0102, Compression::LZ4);
    VInt { size: 3 }.write_value(&mut out, 0x010203, Compression::Uncompressed);
    VInt { size: 3 }.write_value(&mut out, 0x010203, Compression::LZ4);
    VInt { size: 4 }.write_value(&mut out, 0x01020304, Compression::Uncompressed);
    VInt { size: 4 }.write_value(&mut out, 0x01020304, Compression::LZ4);
    VInt { size: 5 }.write_value(&mut out, 7, Compression::LZ4);
    assert_eq!(
        out,
        vec![0xAB, 1, 2, 2, 1, 1, 2, 3, 3, 2, 1, 1, 2, 3, 4, 4, 3, 2, 1]
    );
}

#[test]
fn plain_string_column_bytes() {
    let mut is = column(&["b", "a", "b"]);
    is.sort();
    let bitmaps = vec![vec![0x8000_0002u32 as i32], vec![-1, 5]];
    let mut out = vec![0xEE];
    is.write(&bitmaps, Compression::Uncompressed, &mut out).unwrap();
    let expected: Vec<u8> = vec![
        0xEE, // what was there
        0, // layout version
        1, 1, // dictionary table: version, reverse lookup allowed
        0, 0, 0, 22, // 8 bytes of offsets, 10 of items, 4 of count
        0, 0, 0, 2, // two entries
        0, 0, 0, 5, 0, 0, 0, 10, // offsets
        0, 0, 0, 0, b'a', 0, 0, 0, 0, b'b', // items
        0, 1, // ids: version, width
        0, 0, 0, 6, // three ids and three bytes of padding
        1, 0, 1, // ids
        0, 0, 0, // padding
        1, 0, // bitmap table
        0, 0, 0, 32, // 8 of offsets, 20 of items, 4 of count
        0, 0, 0, 2, //
        0, 0, 0, 8, 0, 0, 0, 20, //
        0, 0, 0, 0, 0x80, 0, 0, 2, //
        0, 0, 0, 0, 0xFF, 0xFF, 0xFF, 0xFF, 0, 0, 0, 5,
    ];
    assert_eq!(out, expected);
}

#[test]
fn packed_string_column_frames_blocks() {
    let mut is = column(&["b", "a", "b"]);
    is.sort();
    let bitmaps = vec![vec![1], vec![2]];
    let mut out = Vec::new();
    is.write(&bitmaps, Compression::LZ4, &mut out).unwrap();
    // layout version, flags, then the dictionary table as in the plain layout
    assert_eq!(&out[..5], &[2, 0, 0, 0, 0]);
    assert_eq!(&out[5..7], &[1, 1]);
    let ids = 5 + 6 + 22;
    assert_eq!(&out[ids..ids + 2], &[2, 1]);
    assert_eq!(&out[ids + 2..ids + 6], &[0, 0, 0, 3]);
    assert_eq!(&out[ids + 6..ids + 10], &[0, 1, 0, 0]);
    assert_eq!(&out[ids + 10..ids + 13], &[1, 1, 0]);
    let stated = u32::from_be_bytes([out[ids + 13], out[ids + 14], out[ids + 15], out[ids + 16]]);
    assert_eq!(&out[ids + 17..ids + 21], &[0, 0, 0, 1]);
    let end = u32::from_be_bytes([out[ids + 21], out[ids + 22], out[ids + 23], out[ids + 24]]);
    assert_eq!(stated, 4 + 4 + end);
    let block = &out[ids + 25..ids + 25 + end as usize];
    assert_eq!(&block[..4], &[0, 0, 0, 0]);
    let raw = lz4::block::decompress(&block[4..], Some(3)).unwrap();
    assert_eq!(raw, vec![1, 0, 1]);
}

#[test]
fn unsorted_column_is_refused() {
    let is = column(&["b", "a"]);
    let mut out = vec![1, 2, 3];
    let r = is.write(&vec![vec![], vec![]], Compression::Uncompressed, &mut out);
    assert_eq!(r, Err(Error::NotSorted));
    assert_eq!(out, vec![1, 2, 3]);
}

#[test]
fn wrong_number_of_bitmaps_is_refused() {
    let mut is = column(&["b", "a"]);
    is.sort();
    let mut out = Vec::new();
    let r = is.write(&vec![vec![1]], Compression::Uncompressed, &mut out);
    assert_eq!(r, Err(Error::MissingBitmap));
    assert!(out.is_empty());
}

#[test]
fn strings_compare_by_code_point_and_prefix_first() {
    assert!(text_before("a", "b"));
    assert!(!text_before("b", "a"));
    assert!(!text_before("a", "a"));
    assert!(text_before("", "a"));
    assert!(!text_before("a", ""));
    assert!(!text_before("", ""));
    assert!(text_before("a", "ab"));
    assert!(!text_before("ab", "a"));
    assert!(text_before("B", "a"));
    assert!(text_before("z", "é"));
    assert!(text_before("é", "\u{10000}"));
    assert!(text_before("\u{FFFF}", "\u{10000}"));
    for (a, b) in [("x", "y"), ("ab", "abc"), ("é", "ê"), ("same", "same"), ("b", "a")] {
        assert_eq!(text_before(a, b), a < b);
    }
}
