use dsp::column::ValVec;
use dsp::error::Error;
use dsp::record::Field;
use dsp::Data;

fn integers(data: &Data, name: &str) -> Vec<i64> {
    match data.column(data.find(&name.to_string()).unwrap()) {
        ValVec::Integer(v) => v.clone(),
        other => panic!("not an integer column: {:?}", other),
    }
}

fn floats(data: &Data, name: &str) -> Vec<u64> {
    match data.column(data.find(&name.to_string()).unwrap()) {
        ValVec::Float(v) => v.clone(),
        other => panic!("not a float column: {:?}", other),
    }
}

fn strings(data: &Data, name: &str) -> Vec<String> {
    match data.column(data.find(&name.to_string()).unwrap()) {
        ValVec::IndexedString(is) => {
            is.indexes().iter().map(|i| is.key(*i).unwrap().clone()).collect()
        }
        other => panic!("not a string column: {:?}", other),
    }
}

fn names(data: &Data) -> Vec<String> {
    (0..data.width()).map(|i| data.name(i).clone()).collect()
}

#[test]
fn values_create_and_fill_columns() {
    let mut data = Data::new();
    assert_eq!(data.rows(), 0);
    assert_eq!(data.width(), 0);
    data.add_i("n".to_string(), 7);
    data.add_s("s".to_string(), "x".to_string());
    data.add_f("f".to_string(), 1.5f64.to_bits());
    data.add_i("n".to_string(), -3);
    assert_eq!(names(&data), vec!["n", "s", "f"]);
    assert_eq!(integers(&data, "n"), vec![7, -3]);
    assert_eq!(strings(&data, "s"), vec!["x"]);
    assert_eq!(floats(&data, "f"), vec![1.5f64.to_bits()]);
    assert_eq!(data.rows(), 2);
    assert!(!data.is_rectangular());
}

#[test]
fn first_kind_of_a_column_wins() {
    let mut data = Data::new();
    data.add_i("a".to_string(), 1);
    data.add_s("a".to_string(), "dropped".to_string());
    data.add_f("a".to_string(), 2.0f64.to_bits());
    data.add_i("a".to_string(), 2);
    assert_eq!(integers(&data, "a"), vec![1, 2]);
    assert_eq!(data.width(), 1);
    data.add_s("s".to_string(), "kept".to_string());
    data.add_i("s".to_string(), 9);
    assert_eq!(strings(&data, "s"), vec!["kept"]);
}

#[test]
fn records_fill_columns_and_skip_other_values() {
    let mut data = Data::new();
    data.add_record(vec![
        ("timestamp".to_string(), Field::Integer(5)),
        ("skipped".to_string(), Field::Other),
        ("v".to_string(), Field::Text("x".to_string())),
        ("w".to_string(), Field::Float(0.25f64.to_bits())),
    ]);
    data.add_field("timestamp".to_string(), Field::Integer(6));
    data.add_field("nothing".to_string(), Field::Other);
    assert_eq!(names(&data), vec!["timestamp", "v", "w"]);
    assert_eq!(integers(&data, "timestamp"), vec![5, 6]);
    assert_eq!(strings(&data, "v"), vec!["x"]);
    assert_eq!(floats(&data, "w"), vec![0.25f64.to_bits()]);
}

#[test]
fn merge_of_disjoint_stores_is_their_union() {
    let mut a = Data::new();
    a.add_i("x".to_string(), 1);
    let mut b = Data::new();
    b.add_s("y".to_string(), "q".to_string());
    b.add_f("z".to_string(), 3.0f64.to_bits());
    assert_eq!(a.append(b), Ok(()));
    assert_eq!(names(&a), vec!["x", "y", "z"]);
    assert_eq!(integers(&a, "x"), vec![1]);
    assert_eq!(strings(&a, "y"), vec!["q"]);
    assert_eq!(floats(&a, "z"), vec![3.0f64.to_bits()]);
}

#[test]
fn merge_of_shared_columns_concatenates() {
    let mut a = Data::new();
    a.add_i("n".to_string(), 1);
    a.add_i("n".to_string(), 2);
    a.add_s("s".to_string(), "a".to_string());
    let mut b = Data::new();
    b.add_s("s".to_string(), "b".to_string());
    b.add_s("s".to_string(), "a".to_string());
    b.add_i("n".to_string(), 3);
    b.add_i("m".to_string(), 4);
    assert_eq!(a.append(b), Ok(()));
    assert_eq!(names(&a), vec!["n", "s", "m"]);
    assert_eq!(integers(&a, "n"), vec![1, 2, 3]);
    assert_eq!(integers(&a, "n").len(), 2 + 1);
    assert_eq!(strings(&a, "s"), vec!["a", "b", "a"]);
    assert_eq!(integers(&a, "m"), vec![4]);
}

#[test]
fn merge_of_conflicting_kinds_is_refused() {
    let mut a = Data::new();
    a.add_i("x".to_string(), 1);
    a.add_s("k".to_string(), "v".to_string());
    let mut b = Data::new();
    b.add_i("new".to_string(), 5);
    b.add_i("k".to_string(), 2);
    assert_eq!(a.append(b), Err(Error::TypeMismatch));
    assert_eq!(names(&a), vec!["x", "k"]);
    assert_eq!(integers(&a, "x"), vec![1]);
    assert_eq!(strings(&a, "k"), vec!["v"]);
}

#[test]
fn count_column_has_a_one_per_row() {
    let mut data = Data::new();
    for t in [3, 1, 2] {
        data.add_i("timestamp".to_string(), t);
        data.add_s("v".to_string(), "s".to_string());
    }
    data.preaggregate();
    assert_eq!(integers(&data, "count"), vec![1, 1, 1]);
    assert!(data.is_rectangular());
    // a second call replaces the column
    data.preaggregate();
    assert_eq!(names(&data), vec!["timestamp", "v", "count"]);
    assert_eq!(integers(&data, "count"), vec![1, 1, 1]);
}

#[test]
fn count_column_of_an_empty_store_is_empty() {
    let mut data = Data::new();
    data.preaggregate();
    assert_eq!(names(&data), vec!["count"]);
    assert_eq!(integers(&data, "count"), Vec::<i64>::new());
    assert_eq!(data.rows(), 0);
    assert!(!data.has_timestamps());
}

#[test]
fn sort_orders_every_column_by_timestamp() {
    let mut data = Data::new();
    let rows = [(100, "b", 1.0f64), (50, "a", 2.0), (75, "c", 3.0), (75, "a", 4.0)];
    for (t, s, f) in rows {
        data.add_i("timestamp".to_string(), t);
        data.add_s("v".to_string(), s.to_string());
        data.add_f("f".to_string(), f.to_bits());
    }
    data.preaggregate();
    assert!(data.has_timestamps());
    assert!(data.is_rectangular());
    data.sort();
    let stamps = integers(&data, "timestamp");
    assert_eq!(stamps, vec![50, 75, 75, 100]);
    assert!(stamps.windows(2).all(|w| w[0] <= w[1]));
    let v = strings(&data, "v");
    let f = floats(&data, "f");
    assert_eq!(v[0], "a");
    assert_eq!(v[3], "b");
    assert_eq!(f[0], 2.0f64.to_bits());
    assert_eq!(f[3], 1.0f64.to_bits());
    // the two rows with equal timestamps stay whole rows
    let middle: Vec<(String, u64)> = vec![(v[1].clone(), f[1]), (v[2].clone(), f[2])];
    assert!(middle.contains(&("c".to_string(), 3.0f64.to_bits())));
    assert!(middle.contains(&("a".to_string(), 4.0f64.to_bits())));
    assert_eq!(integers(&data, "count"), vec![1, 1, 1, 1]);
    assert!(data.is_rectangular());
}

#[test]
fn two_records_sort_into_timestamp_order() {
    let mut data = Data::new();
    data.add_record(vec![
        ("timestamp".to_string(), Field::Integer(100)),
        ("v".to_string(), Field::Text("b".to_string())),
    ]);
    data.add_record(vec![
        ("timestamp".to_string(), Field::Integer(50)),
        ("v".to_string(), Field::Text("a".to_string())),
    ]);
    data.preaggregate();
    data.sort();
    assert_eq!(integers(&data, "timestamp"), vec![50, 100]);
    assert_eq!(strings(&data, "v"), vec!["a", "b"]);
    match data.column(data.find(&"v".to_string()).unwrap()) {
        ValVec::IndexedString(is) => {
            assert_eq!(is.key(0).unwrap(), "a");
            assert_eq!(is.key(1).unwrap(), "b");
            assert_eq!(is.indexes(), &vec![0, 1]);
            assert_eq!(is.positions().unwrap(), vec![vec![0], vec![1]]);
        }
        _ => panic!("not a string column"),
    }
}

#[test]
fn columns_are_told_apart_by_kind() {
    let a = ValVec::Integer(vec![1]);
    let b = ValVec::Integer(vec![]);
    let c = ValVec::Float(vec![]);
    assert!(a.same_kind(&b));
    assert!(!a.same_kind(&c));
    assert_eq!(a.fresh().len(), 0);
    let mut x = ValVec::Integer(vec![1]);
    let mut y = ValVec::Float(vec![2]);
    assert_eq!(x.append(&mut y), Err(Error::TypeMismatch));
    assert_eq!(x.len(), 1);
    assert_eq!(y.len(), 1);
    let mut z = ValVec::Integer(vec![5, 6]);
    assert_eq!(x.append(&mut z), Ok(()));
    assert_eq!(x.len(), 3);
    assert_eq!(z.len(), 0);
    x.push_s("ignored".to_string());
    x.push_f(1);
    x.push_i(9);
    assert_eq!(x.len(), 4);
}
