use dsp::column::ValVec;
use dsp::conf::{Compression, Conf};
use dsp::error::Error;
use dsp::index::{index_text, make_span_line, push_decimal};
use dsp::interner::{bitmap_table, put_words};
use dsp::segment::{
    examine_plan, examine_store, column_names, find_bitmaps, is_non_decreasing, select,
    write_columns_index, write_factory, write_version, ColumnBitmaps, BITMAP_TYPE, FACTORY,
    META_DOUBLE, META_LONG, META_STRING, SEGMENT_META,
};
use dsp::Data;
use serde_json::{Number, Value};

fn conf(dimensions: &[&str], metrics: &[&str], compression: Compression) -> Conf {
    Conf {
        dimensions: dimensions.iter().map(|s| s.to_string()).collect(),
        metrics: metrics.iter().map(|s| s.to_string()).collect(),
        output: "output".to_string(),
        compression,
        threads: 1,
        file: "in.json".to_string(),
    }
}

fn sample() -> Data {
    let mut data = Data::new();
    for (t, v, f) in [(100, "b", 1.0f64), (50, "a", 2.0)] {
        data.add_i("timestamp".to_string(), t);
        data.add_s("v".to_string(), v.to_string());
        data.add_f("f".to_string(), f.to_bits());
    }
    data.preaggregate();
    data.sort();
    data
}

fn bitmaps_of(data: &Data) -> Vec<ColumnBitmaps> {
    let mut all = Vec::new();
    for i in 0..data.width() {
        if let ValVec::IndexedString(is) = data.column(i) {
            // the row lists stand in for the words of a bitmap encoder
            all.push(ColumnBitmaps { name: data.name(i).clone(), words: is.positions().unwrap() });
        }
    }
    all
}

fn object(pairs: Vec<(&str, Value)>) -> Value {
    let mut map = serde_json::Map::new();
    for (k, v) in pairs {
        map.insert(k.to_string(), v);
    }
    Value::Object(map)
}

fn text(s: &str) -> Value {
    Value::String(s.to_string())
}

#[test]
fn descriptions_are_the_json_of_their_fields() {
    let part = |kind: &str| {
        object(vec![("type", text(kind)), ("byteOrder", text("LITTLE_ENDIAN"))])
    };
    let column = |value: &str, part: Value| {
        object(vec![
            ("valueType", text(value)),
            ("hasMultipleValues", Value::Bool(false)),
            ("parts", Value::Array(vec![part])),
        ])
    };
    assert_eq!(META_LONG, column("LONG", part("long")).to_string());
    assert_eq!(META_DOUBLE, column("DOUBLE", part("double")).to_string());
    let strings = object(vec![
        ("type", text("stringDictionary")),
        ("bitmapSerdeFactory", object(vec![("type", text("concise"))])),
        ("byteOrder", text("LITTLE_ENDIAN")),
    ]);
    assert_eq!(META_STRING, column("STRING", strings).to_string());
    assert_eq!(BITMAP_TYPE, object(vec![("type", text("concise"))]).to_string());
    assert_eq!(BITMAP_TYPE.len(), 18);
    assert_eq!(FACTORY, object(vec![("type", text("mMapSegmentFactory"))]).to_string());
    let meta = object(vec![
        ("container", object(vec![])),
        (
            "aggregators",
            Value::Array(vec![object(vec![
                ("type", text("longSum")),
                ("name", text("count")),
                ("fieldName", text("count")),
                ("expression", Value::Null),
            ])]),
        ),
        (
            "timestampSpec",
            object(vec![
                ("column", text("timestamp")),
                ("format", text("millis")),
                ("missingValue", Value::Null),
            ]),
        ),
        ("queryGranularity", object(vec![("type", text("none"))])),
        ("rollup", Value::Bool(true)),
    ]);
    assert_eq!(SEGMENT_META, meta.to_string());
    assert_eq!(Value::Number(Number::from(9)).to_string(), "9");
}

#[test]
fn version_and_factory_files() {
    let mut version = Vec::new();
    write_version(&mut version);
    assert_eq!(version, vec![0, 0, 0, 9]);
    let mut factory = Vec::new();
    write_factory(&mut factory);
    assert_eq!(factory, b"{\"type\":\"mMapSegmentFactory\"}".to_vec());
}

#[test]
fn selection_of_columns() {
    let data = sample();
    assert_eq!(column_names(&data), vec!["timestamp", "v", "f", "count"]);
    let none: Vec<String> = vec![];
    let count = vec!["count".to_string()];
    assert_eq!(select(&data, &none, &count), (count.clone(), vec!["v".to_string(), "f".to_string()]));
    assert_eq!(select(&data, &none, &none), (count.clone(), vec!["v".to_string(), "f".to_string()]));
    let mut uncounted = Data::new();
    uncounted.add_i("timestamp".to_string(), 1);
    uncounted.add_i("n".to_string(), 2);
    assert_eq!(select(&uncounted, &none, &none), (none.clone(), vec!["n".to_string()]));
    let f = vec!["f".to_string()];
    assert_eq!(select(&data, &f, &none), (count.clone(), f.clone()));
    assert_eq!(
        select(&data, &none, &f),
        (vec!["f".to_string(), "count".to_string()], vec!["v".to_string()])
    );
    let dims: Vec<String> =
        ["f", "timestamp", "f", "count", "x", "v"].iter().map(|s| s.to_string()).collect();
    let metrics: Vec<String> =
        ["count", "v", "count", "timestamp"].iter().map(|s| s.to_string()).collect();
    assert_eq!(
        select(&data, &dims, &metrics),
        (vec!["count".to_string(), "v".to_string()], vec!["f".to_string(), "x".to_string()])
    );
}

#[test]
fn table_of_names() {
    let mut out = Vec::new();
    let names = vec!["ab".to_string(), "é".to_string()];
    assert_eq!(write_columns_index(&mut out, &names), Ok(()));
    assert_eq!(
        out,
        vec![
            1, 0, 0, 0, 0, 24, 0, 0, 0, 2, //
            0, 0, 0, 6, 0, 0, 0, 12, //
            0, 0, 0, 0, b'a', b'b', 0, 0, 0, 0, 0xC3, 0xA9,
        ]
    );
}

#[test]
fn words_of_bitmaps() {
    let mut out = Vec::new();
    put_words(&mut out, &vec![1, -2, i32::MIN]);
    assert_eq!(out, vec![0, 0, 0, 1, 0xFF, 0xFF, 0xFF, 0xFE, 0x80, 0, 0, 0]);
    let t = bitmap_table(&vec![vec![1], vec![], vec![2, 3]]).unwrap();
    assert_eq!(t.len(), 3);
}

#[test]
fn index_lines() {
    assert_eq!(make_span_line("v", 0, 12), "v,0,0,12\n");
    let mut s = "x".to_string();
    push_decimal(&mut s, 9075);
    push_decimal(&mut s, 0);
    assert_eq!(s, "x90750");
    let order: Vec<String> =
        ["timestamp", "count", "z", "a", "m"].iter().map(|s| s.to_string()).collect();
    let ends = vec![10, 25, 40, 41, 99];
    let text = String::from_utf8(index_text(&order, &ends, 1, 150, 170)).unwrap();
    assert_eq!(
        text,
        "v1,2147483647,1\n__time,0,0,10\ncount,0,10,25\n\
         a,0,40,41\nindex.drd,0,99,150\nm,0,41,99\nmetadata.drd,0,150,170\nz,0,25,40\n"
    );
}

#[test]
fn refusals_of_a_store() {
    assert!(is_non_decreasing(&vec![]));
    assert!(is_non_decreasing(&vec![1, 1, 2]));
    assert!(!is_non_decreasing(&vec![1, 3, 2]));
    assert_eq!(examine_store(&sample()), Ok(50));
    assert_eq!(examine_store(&Data::new()), Err(Error::EmptySegment));
    let mut counted = Data::new();
    counted.preaggregate();
    assert_eq!(examine_store(&counted), Err(Error::EmptySegment));
    let mut plain = Data::new();
    plain.add_i("n".to_string(), 1);
    assert_eq!(examine_store(&plain), Err(Error::MissingColumn));
    let mut text = Data::new();
    text.add_s("timestamp".to_string(), "now".to_string());
    assert_eq!(examine_store(&text), Err(Error::TypeMismatch));
    let mut ragged = Data::new();
    ragged.add_i("timestamp".to_string(), 1);
    ragged.add_i("timestamp".to_string(), 2);
    ragged.add_i("n".to_string(), 1);
    assert_eq!(examine_store(&ragged), Err(Error::RowCountMismatch));
    let mut unsorted = Data::new();
    unsorted.add_i("timestamp".to_string(), 2);
    unsorted.add_i("timestamp".to_string(), 1);
    assert_eq!(examine_store(&unsorted), Err(Error::NotSorted));
}

#[test]
fn refusals_of_a_plan() {
    let data = sample();
    let bitmaps = bitmaps_of(&data);
    let order: Vec<String> = ["timestamp", "v", "f"].iter().map(|s| s.to_string()).collect();
    assert_eq!(examine_plan(&data, &bitmaps, &order), None);
    assert!(find_bitmaps(&bitmaps, &"v".to_string()).is_some());
    assert!(find_bitmaps(&bitmaps, &"f".to_string()).is_none());
    assert_eq!(examine_plan(&data, &vec![], &order), Some(Error::MissingBitmap));
    let short = vec![ColumnBitmaps { name: "v".to_string(), words: vec![vec![0]] }];
    assert_eq!(examine_plan(&data, &short, &order), Some(Error::MissingBitmap));
    let missing = vec!["timestamp".to_string(), "nope".to_string()];
    assert_eq!(examine_plan(&data, &bitmaps, &missing), Some(Error::MissingColumn));
    let mut grown = sample();
    grown.add_s("v".to_string(), "zzz".to_string());
    let wide = vec![ColumnBitmaps { name: "v".to_string(), words: vec![vec![], vec![], vec![]] }];
    assert_eq!(examine_plan(&grown, &wide, &order), None);
    grown.add_s("v".to_string(), "A".to_string());
    let wider = vec![ColumnBitmaps { name: "v".to_string(), words: vec![vec![]; 4] }];
    assert_eq!(examine_plan(&grown, &wider, &order), Some(Error::NotSorted));
}

#[test]
fn segment_of_two_rows() {
    let data = sample();
    let bitmaps = bitmaps_of(&data);
    let conf = conf(&["v", "f"], &["count"], Compression::Uncompressed);
    let mut file = vec![0x11];
    let mut index = vec![0x22];
    assert_eq!(data.write_data(&conf, &bitmaps, &mut file, &mut index), Ok(()));

    let mut expected = vec![0x11];
    let mut ends = Vec::new();
    for key in ["timestamp", "count", "v", "f"] {
        let n = data
            .write_key(&mut expected, &key.to_string(), &bitmaps, Compression::Uncompressed)
            .unwrap();
        assert!(n > 0);
        ends.push(expected.len() - 1);
    }
    let listed: Vec<String> = ["count", "v", "f"].iter().map(|s| s.to_string()).collect();
    write_columns_index(&mut expected, &listed).unwrap();
    write_columns_index(&mut expected, &listed[1..].to_vec()).unwrap();
    expected.extend_from_slice(&50i64.to_be_bytes());
    expected.extend_from_slice(&(50i64 + 86_400_000).to_be_bytes());
    expected.extend_from_slice(&[0, 0, 0, 18]);
    expected.extend_from_slice(b"{\"type\":\"concise\"}");
    let body_end = expected.len() - 1;
    expected.extend_from_slice(SEGMENT_META.as_bytes());
    assert_eq!(file, expected);

    let total = file.len() - 1;
    let text = format!(
        "v1,2147483647,1\n__time,0,0,{}\ncount,0,{},{}\n\
         f,0,{},{}\nindex.drd,0,{},{}\nmetadata.drd,0,{},{}\nv,0,{},{}\n",
        ends[0], ends[0], ends[1], ends[2], ends[3], ends[3], body_end, body_end, total, ends[1],
        ends[2]
    );
    assert_eq!(index[0], 0x22);
    assert_eq!(String::from_utf8(index[1..].to_vec()).unwrap(), text);
}

#[test]
fn files_of_a_segment() {
    let data = sample();
    let bitmaps = bitmaps_of(&data);
    let conf = conf(&["v"], &["count"], Compression::LZ4);
    let files = data.write(&conf, &bitmaps).unwrap();
    assert_eq!(files.version, vec![0, 0, 0, 9]);
    assert_eq!(files.factory, FACTORY.as_bytes().to_vec());
    let mut file = Vec::new();
    let mut index = Vec::new();
    data.write_data(&conf, &bitmaps, &mut file, &mut index).unwrap();
    assert_eq!(files.data, file);
    assert_eq!(files.index, index);
    assert!(!files.index.is_empty());
    assert_eq!(data.write(&conf, &vec![]).unwrap_err(), Error::MissingBitmap);
}

#[test]
fn segment_without_named_columns_holds_every_column() {
    let data = sample();
    let bitmaps = bitmaps_of(&data);
    let none = conf(&[], &[], Compression::Uncompressed);
    let named = conf(&["v", "f"], &["count"], Compression::Uncompressed);
    let mut file = Vec::new();
    let mut index = Vec::new();
    assert_eq!(data.write_data(&none, &bitmaps, &mut file, &mut index), Ok(()));
    assert!(index.is_empty());
    let mut same = Vec::new();
    assert_eq!(data.write_data(&named, &bitmaps, &mut same, &mut index), Ok(()));
    assert_eq!(file, same);
    let mut listed = Vec::new();
    let names: Vec<String> = ["count", "v", "f"].iter().map(|s| s.to_string()).collect();
    write_columns_index(&mut listed, &names).unwrap();
    assert!(file.windows(listed.len()).any(|w| w == &listed[..]));
}

#[test]
fn segment_without_named_columns_has_no_index() {
    let data = sample();
    let bitmaps = bitmaps_of(&data);
    let conf = conf(&[], &[], Compression::LZ4);
    let mut file = Vec::new();
    let mut index = Vec::new();
    assert_eq!(data.write_data(&conf, &bitmaps, &mut file, &mut index), Ok(()));
    assert!(index.is_empty());
    assert!(file.ends_with(SEGMENT_META.as_bytes()));
    assert_eq!(&file[..4], &[0, 0, 0, META_LONG.len() as u8]);
}

#[test]
fn refused_segments_write_nothing() {
    let data = sample();
    let bitmaps = bitmaps_of(&data);
    let mut file = vec![1];
    let mut index = vec![2];
    let cases: Vec<(Data, Conf, Vec<ColumnBitmaps>, Error)> = vec![
        (Data::new(), conf(&[], &[], Compression::Uncompressed), vec![], Error::EmptySegment),
        (
            sample(),
            conf(&["nope"], &["count"], Compression::Uncompressed),
            bitmaps_of(&data),
            Error::MissingColumn,
        ),
        (sample(), conf(&["v"], &["count"], Compression::Uncompressed), vec![], Error::MissingBitmap),
    ];
    for (store, conf, maps, error) in cases {
        assert_eq!(store.write_data(&conf, &maps, &mut file, &mut index), Err(error));
        assert_eq!(file, vec![1]);
        assert_eq!(index, vec![2]);
    }
    assert_eq!(
        data.write_key(&mut file, &"nope".to_string(), &bitmaps, Compression::Uncompressed),
        Err(Error::MissingColumn)
    );
    assert_eq!(file, vec![1]);
}

#[test]
fn time_range_past_the_last_timestamp_is_refused() {
    let mut data = Data::new();
    data.add_i("timestamp".to_string(), i64::MAX - 86_399_999);
    data.preaggregate();
    data.sort();
    let mut file = Vec::new();
    let mut index = Vec::new();
    let conf = conf(&[], &["count"], Compression::Uncompressed);
    assert_eq!(
        data.write_data(&conf, &vec![], &mut file, &mut index),
        Err(Error::EncodingOverflow)
    );
    assert!(file.is_empty() && index.is_empty());
    let mut last = Data::new();
    last.add_i("timestamp".to_string(), i64::MAX - 86_400_000);
    last.preaggregate();
    last.sort();
    assert_eq!(last.write_data(&conf, &vec![], &mut file, &mut index), Ok(()));
}

#[test]
fn settings_tell_whether_columns_are_named() {
    assert!(!conf(&[], &[], Compression::LZ4).explicit_selection());
    assert!(conf(&["a"], &[], Compression::LZ4).explicit_selection());
    assert!(conf(&[], &["count"], Compression::LZ4).explicit_selection());
}

#[test]
fn queue_holds_four_chunks_per_worker() {
    let mut c = conf(&[], &[], Compression::LZ4);
    c.threads = 3;
    assert_eq!(c.queue_bound(), Some(12));
    c.threads = 0;
    assert_eq!(c.queue_bound(), Some(0));
    c.threads = usize::MAX / 4 + 1;
    assert_eq!(c.queue_bound(), None);
    assert_eq!(dsp::conf::CHUNK_LINES, 1000);
}
