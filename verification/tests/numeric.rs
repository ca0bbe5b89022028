use dsp::codec::{compress, frame};
use dsp::column::{numeric_blocks, write_numeric, VVWrite};
use dsp::conf::Compression;
use dsp::indexed::Table;
use dsp::wire::{put_bytes, put_decimal};

fn be32(bytes: &[u8], at: usize) -> u32 {
    u32::from_be_bytes([bytes[at], bytes[at + 1], bytes[at + 2], bytes[at + 3]])
}

#[test]
fn compression_ids() {
    assert_eq!(Compression::Uncompressed.id(), 0xff);
    assert_eq!(Compression::LZ4.id(), 0x01);
}

#[test]
fn values_are_eight_bytes_little_endian() {
    let mut out = Vec::new();
    0x0102030405060708i64.write(&mut out);
    (-2i64).write(&mut out);
    0x1122334455667788u64.write(&mut out);
    assert_eq!(
        out,
        vec![
            8, 7, 6, 5, 4, 3, 2, 1, //
            0xFE, 0xFF, 0xFF, 0xFF, 0xFF, 0xFF, 0xFF, 0xFF, //
            0x88, 0x77, 0x66, 0x55, 0x44, 0x33, 0x22, 0x11,
        ]
    );
    let mut float = Vec::new();
    1.5f64.to_bits().write(&mut float);
    assert_eq!(float, 1.5f64.to_le_bytes().to_vec());
}

#[test]
fn decimal_digits() {
    let mut out = b"n=".to_vec();
    put_decimal(&mut out, 0);
    put_bytes(&mut out, b",");
    put_decimal(&mut out, 7);
    put_bytes(&mut out, b",");
    put_decimal(&mut out, 1234567890);
    assert_eq!(out, b"n=0,7,1234567890".to_vec());
}

#[test]
fn a_block_is_a_marker_and_a_payload() {
    let mut out = vec![9];
    frame(&mut out, &[1, 2, 3]);
    assert_eq!(out, vec![9, 0, 0, 0, 0, 1, 2, 3]);
    let mut plain = Vec::new();
    assert_eq!(compress(&mut plain, &[5, 6], Compression::Uncompressed), Ok(()));
    assert_eq!(plain, vec![0, 0, 0, 0, 5, 6]);
}

#[test]
fn packed_block_unpacks_to_the_data() {
    let data: Vec<u8> = (0..4000u32).map(|i| (i % 7) as u8).collect();
    let mut out = Vec::new();
    assert_eq!(compress(&mut out, &data, Compression::LZ4), Ok(()));
    assert_eq!(&out[..4], &[0, 0, 0, 0]);
    assert!(out.len() < data.len());
    assert_ne!(&out[4..], &data[..]);
    let back = lz4::block::decompress(&out[4..], Some(data.len() as i32)).unwrap();
    assert_eq!(back, data);
    let same = lz4::block::compress(
        &data,
        Some(lz4::block::CompressionMode::HIGHCOMPRESSION(9)),
        false,
    )
    .unwrap();
    assert_eq!(&out[4..], &same[..]);
}

#[test]
fn oversized_block_is_refused_by_the_compressor() {
    // more than the compressor takes; the zeroed pages are never touched
    let data = vec![0u8; 0x7E00_0001];
    let mut out = vec![3];
    assert_eq!(compress(&mut out, &data, Compression::LZ4), Err(dsp::Error::Packaging));
    assert_eq!(out, vec![3]);
    let mut t = Table::new();
    assert_eq!(t.push_packed(&data, Compression::LZ4), Err(dsp::Error::Packaging));
    assert_eq!(t.len(), 0);
}

#[test]
fn zero_rows_make_an_empty_segment_refusal() {
    let mut data = dsp::Data::new();
    data.preaggregate();
    let conf = dsp::Conf {
        dimensions: vec![],
        metrics: vec!["count".to_string()],
        output: String::new(),
        compression: Compression::Uncompressed,
        threads: 1,
        file: String::new(),
    };
    let mut file = Vec::new();
    let mut index = Vec::new();
    assert_eq!(
        data.write_data(&conf, &vec![], &mut file, &mut index),
        Err(dsp::Error::EmptySegment)
    );
    assert!(file.is_empty() && index.is_empty());
}

#[test]
fn table_layout() {
    let mut t = Table::new();
    assert_eq!(t.len(), 0);
    assert_eq!(t.push(b"ab"), Ok(()));
    assert_eq!(t.push(b""), Ok(()));
    assert_eq!(t.push_packed(b"xyz", Compression::Uncompressed), Ok(()));
    assert_eq!(t.len(), 3);
    let mut out = vec![7];
    t.write(&mut out, 1);
    assert_eq!(
        out,
        vec![
            7, 1, 1, //
            0, 0, 0, 33, // 12 of offsets, 17 of items, 4 of count
            0, 0, 0, 3, //
            0, 0, 0, 6, 0, 0, 0, 10, 0, 0, 0, 17, //
            0, 0, 0, 0, b'a', b'b', //
            0, 0, 0, 0, //
            0, 0, 0, 0, b'x', b'y', b'z',
        ]
    );
    let mut empty = Vec::new();
    Table::new().write(&mut empty, 0);
    assert_eq!(empty, vec![1, 0, 0, 0, 0, 4, 0, 0, 0, 0]);
}

#[test]
fn table_of_chunks_cuts_at_the_size() {
    let raw: Vec<u8> = (0..10).collect();
    let t = Table::of_chunks(&raw, 4, Compression::Uncompressed).unwrap();
    assert_eq!(t.len(), 3);
    let mut out = Vec::new();
    t.write(&mut out, 0);
    assert_eq!(
        out,
        vec![
            1, 0, 0, 0, 0, 38, 0, 0, 0, 3, //
            0, 0, 0, 8, 0, 0, 0, 16, 0, 0, 0, 22, //
            0, 0, 0, 0, 0, 1, 2, 3, //
            0, 0, 0, 0, 4, 5, 6, 7, //
            0, 0, 0, 0, 8, 9,
        ]
    );
    assert_eq!(Table::of_chunks(&[], 4, Compression::Uncompressed).unwrap().len(), 0);
    assert_eq!(Table::of_chunks(&raw, 10, Compression::Uncompressed).unwrap().len(), 1);
    assert_eq!(Table::of_chunks(&raw, 9, Compression::Uncompressed).unwrap().len(), 2);
}

#[test]
fn plain_numeric_column_bytes() {
    let mut out = vec![0xAA];
    assert_eq!(write_numeric(&mut out, "M", &vec![1i64, -1], Compression::Uncompressed), Ok(()));
    let mut expected = vec![
        0xAA, //
        0, 0, 0, 1, b'M', //
        2, //
        0, 0, 0, 2, // values
        0, 0, 0x20, 0, // 8192 values in a block
        0xFF, // compression
        1, 0, //
        0, 0, 0, 28, // 4 of offsets, 20 of items, 4 of count
        0, 0, 0, 1, //
        0, 0, 0, 20, //
        0, 0, 0, 0, //
        1, 0, 0, 0, 0, 0, 0, 0,
    ];
    expected.extend_from_slice(&[0xFF; 8]);
    assert_eq!(out, expected);
}

#[test]
fn empty_numeric_column_has_no_blocks() {
    let mut out = Vec::new();
    assert_eq!(write_numeric(&mut out, "", &Vec::<u64>::new(), Compression::Uncompressed), Ok(()));
    assert_eq!(
        out,
        vec![0, 0, 0, 0, 2, 0, 0, 0, 0, 0, 0, 0x20, 0, 0xFF, 1, 0, 0, 0, 0, 4, 0, 0, 0, 0]
    );
}

#[test]
fn twenty_thousand_integers_make_three_blocks() {
    let data: Vec<i64> = (0..20000).collect();
    let meta = "{}";
    let mut out = Vec::new();
    assert_eq!(write_numeric(&mut out, meta, &data, Compression::LZ4), Ok(()));
    let at = 4 + meta.len();
    assert_eq!(out[at], 2);
    assert_eq!(be32(&out, at + 1), 20000);
    assert_eq!(be32(&out, at + 5), 8192);
    assert_eq!(out[at + 9], 0x01);
    assert_eq!(&out[at + 10..at + 12], &[1, 0]);
    let stated = be32(&out, at + 12) as usize;
    assert_eq!(be32(&out, at + 16), 3);
    let offsets = at + 20;
    let ends: Vec<usize> = (0..3).map(|k| be32(&out, offsets + 4 * k) as usize).collect();
    assert!(ends[0] < ends[1] && ends[1] < ends[2]);
    let items = offsets + 12;
    assert_eq!(stated, 12 + ends[2] + 4);
    assert_eq!(out.len(), items + ends[2]);
    let sizes = [8192usize, 8192, 20000 - 2 * 8192];
    let mut start = 0;
    let mut first = 0i64;
    for k in 0..3 {
        let block = &out[items + start..items + ends[k]];
        assert_eq!(&block[..4], &[0, 0, 0, 0]);
        let raw = lz4::block::decompress(&block[4..], Some((sizes[k] * 8) as i32)).unwrap();
        assert_eq!(raw.len(), sizes[k] * 8);
        assert_eq!(&raw[..8], &first.to_le_bytes());
        first += sizes[k] as i64;
        start = ends[k];
    }
    let t = numeric_blocks(&data, Compression::LZ4).unwrap();
    assert_eq!(t.len(), 3);
    assert_eq!(numeric_blocks(&data, Compression::Uncompressed).unwrap().len(), 3);
    assert_eq!(numeric_blocks(&data[..8192].to_vec(), Compression::LZ4).unwrap().len(), 1);
    assert_eq!(numeric_blocks(&data[..8193].to_vec(), Compression::LZ4).unwrap().len(), 2);
}
