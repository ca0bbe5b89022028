//! The segment file: the columns one after another, the tables of their
//! names, the time range and the description of the segment; and beside it
//! the text index that tells where each column lies.

use vstd::prelude::*;
use vstd::string::StringSliceAdditionalSpecFns;
use vstd::utf8::encode_utf8;
use indexmap::IndexSet;
use std::collections::hash_map::RandomState;
use crate::column::{
    numeric_section, numeric_section_fits, words_of, write_numeric, ColumnData, ValVec,
};
use crate::conf::{Compression, Conf};
use crate::error::Error;
use crate::index::{index_pieces, index_text, offsets_of, pieces_bytes};
use crate::indexed::{lemma_fits_prefix, table, table_fits, Table};
use crate::interner::{string_section, string_section_fits, word_lists};
use crate::ordered_set::{set_at, set_contains, set_insert_full, set_items, set_len, set_new};
use crate::permutation::non_decreasing;
use crate::store::{Data, COUNT, TIMESTAMP};
use crate::text::{distinct, lemma_with_texts_holds};
use crate::wire::{be_bytes, bits64, put_bytes, put_i64_be, put_u32_be};

verus! {

/// The description of an integer column.
pub const META_LONG: &'static str =
    "{\"hasMultipleValues\":false,\"parts\":[{\"byteOrder\":\"LITTLE_ENDIAN\",\"type\":\"long\"}],\"valueType\":\"LONG\"}";

/// The description of a float column.
pub const META_DOUBLE: &'static str =
    "{\"hasMultipleValues\":false,\"parts\":[{\"byteOrder\":\"LITTLE_ENDIAN\",\"type\":\"double\"}],\"valueType\":\"DOUBLE\"}";

/// The description of a string column.
pub const META_STRING: &'static str =
    "{\"hasMultipleValues\":false,\"parts\":[{\"bitmapSerdeFactory\":{\"type\":\"concise\"},\"byteOrder\":\"LITTLE_ENDIAN\",\"type\":\"stringDictionary\"}],\"valueType\":\"STRING\"}";

/// The kind of the bitmaps of the segment.
pub const BITMAP_TYPE: &'static str = "{\"type\":\"concise\"}";

/// The description of the segment: its one aggregator, which sums the
/// count column, the timestamp column, the granularity and the rollup
/// flag.
pub const SEGMENT_META: &'static str =
    "{\"aggregators\":[{\"expression\":null,\"fieldName\":\"count\",\"name\":\"count\",\"type\":\"longSum\"}],\"container\":{},\"queryGranularity\":{\"type\":\"none\"},\"rollup\":true,\"timestampSpec\":{\"column\":\"timestamp\",\"format\":\"millis\",\"missingValue\":null}}";

/// The content of the file that names how the segment is loaded.
pub const FACTORY: &'static str = "{\"type\":\"mMapSegmentFactory\"}";

/// The version of the segment format.
pub const FORMAT_VERSION: u32 = 9;

/// The length of the time range of a segment, in milliseconds: one day.
pub const DAY_MILLIS: i64 = 86_400_000;

/// The files of one segment.
#[derive(Debug)]
pub struct SegmentFiles {
    /// The version of the format.
    pub version: Vec<u8>,
    /// The name of the loader of the segment.
    pub factory: Vec<u8>,
    /// The segment itself.
    pub data: Vec<u8>,
    /// The text index of the segment; empty where there is none.
    pub index: Vec<u8>,
}

/// The bitmaps of one string column: for each dictionary id the words that
/// a bitmap encoder made of the rows holding it.
#[derive(Debug)]
pub struct ColumnBitmaps {
    pub name: String,
    pub words: Vec<Vec<i32>>,
}

/// The bitmaps of the column called `name`: those of the first entry of
/// that name.
pub open spec fn lookup(bitmaps: Seq<ColumnBitmaps>, name: Seq<char>) -> Option<Seq<Vec<i32>>>
    decreases bitmaps.len(),
{
    if bitmaps.len() == 0 {
        None
    } else if bitmaps[0].name@ == name {
        Some(bitmaps[0].words@)
    } else {
        lookup(bitmaps.drop_first(), name)
    }
}

/// Why a column cannot be written with the bitmaps found for it, if it
/// cannot: a string column needs bitmaps, one for each dictionary entry,
/// and a dictionary in order.
pub open spec fn column_refusal(column: ValVec, found: Option<Seq<Vec<i32>>>) -> Option<Error> {
    match column {
        ValVec::IndexedString(is) => match found {
            Some(words) => is.refusal(words.len() as int),
            None => Some(Error::MissingBitmap),
        },
        _ => None,
    }
}

/// A column as it stands in the segment: the description of its type
/// behind its length, then its values.
pub open spec fn column_bytes(
    column: ValVec,
    found: Option<Seq<Vec<i32>>>,
    compression: Compression,
) -> Seq<u8> {
    match column {
        ValVec::IndexedString(is) => be_bytes(META_STRING.spec_bytes().len() as int, 4)
            + META_STRING.spec_bytes() + string_section(
            is.dictionary(),
            is.ids(),
            word_lists(found.unwrap()),
            compression,
        ),
        ValVec::Integer(v) => numeric_section(META_LONG.spec_bytes(), words_of(v@), compression),
        ValVec::Float(v) => numeric_section(META_DOUBLE.spec_bytes(), words_of(v@), compression),
    }
}

/// Whether every count and length of the column fits its 32-bit field.
pub open spec fn column_fits(
    column: ValVec,
    found: Option<Seq<Vec<i32>>>,
    compression: Compression,
) -> bool {
    match column {
        ValVec::IndexedString(is) => META_STRING.spec_bytes().len() <= u32::MAX
            && string_section_fits(
            is.dictionary(),
            is.ids(),
            word_lists(found.unwrap()),
            compression,
        ),
        ValVec::Integer(v) => numeric_section_fits(
            META_LONG.spec_bytes(),
            words_of(v@),
            compression,
        ),
        ValVec::Float(v) => numeric_section_fits(
            META_DOUBLE.spec_bytes(),
            words_of(v@),
            compression,
        ),
    }
}

/// The bitmaps of the column called `name`.
pub fn find_bitmaps<'a>(bitmaps: &'a Vec<ColumnBitmaps>, name: &String) -> (r: Option<
    &'a Vec<Vec<i32>>,
>)
    ensures
        match r {
            Some(words) => lookup(bitmaps@, name@) == Some(words@),
            None => lookup(bitmaps@, name@) is None,
        },
{
    let n: usize = bitmaps.len();
    let mut i: usize = 0;
    assert(bitmaps@.skip(0) =~= bitmaps@);
    while i < n
        invariant
            i <= n,
            n == bitmaps@.len(),
            lookup(bitmaps@, name@) == lookup(bitmaps@.skip(i as int), name@),
        decreases n - i,
    {
        assert(bitmaps@.skip(i as int).drop_first() =~= bitmaps@.skip(i + 1));
        if bitmaps[i].name == *name {
            return Some(&bitmaps[i].words);
        }
        i = i + 1;
    }
    None
}

/// Appends one column, or nothing when the column is refused, one of its
/// numbers does not fit, or the compressor fails. Returns the number of
/// bytes appended.
pub fn write_column(
    writer: &mut Vec<u8>,
    column: &ValVec,
    found: Option<&Vec<Vec<i32>>>,
    compression: Compression,
) -> (r: Result<usize, Error>)
    requires
        column.wf(),
    ensures
        r is Err ==> final(writer)@ == old(writer)@,
        column_refusal(*column, spec_words(found)) matches Some(e) ==> r == Err::<usize, Error>(e),
        column_refusal(*column, spec_words(found)) is None ==> match r {
            Ok(n) => column_fits(*column, spec_words(found), compression) && final(writer)@
                == old(writer)@ + column_bytes(*column, spec_words(found), compression) && n
                == column_bytes(*column, spec_words(found), compression).len(),
            Err(e) => (e == Error::EncodingOverflow && !column_fits(
                *column,
                spec_words(found),
                compression,
            )) || (e == Error::Packaging && compression == Compression::LZ4),
        },
{
    let start: usize = writer.len();
    match column {
        ValVec::IndexedString(is) => {
            let words = match found {
                Some(words) => words,
                None => {
                    return Err(Error::MissingBitmap);
                },
            };
            let text = META_STRING.as_bytes();
            let mut section: Vec<u8> = Vec::new();
            match is.write(words, compression, &mut section) {
                Ok(()) => {},
                Err(e) => {
                    return Err(e);
                },
            }
            if text.len() > 0xFFFF_FFFF {
                return Err(Error::EncodingOverflow);
            }
            put_u32_be(writer, text.len() as u32);
            put_bytes(writer, text);
            put_bytes(writer, section.as_slice());
            assert(writer@ =~= old(writer)@ + column_bytes(
                *column,
                spec_words(found),
                compression,
            ));
        },
        ValVec::Integer(v) => {
            match write_numeric(writer, META_LONG, v, compression) {
                Ok(()) => {},
                Err(e) => {
                    return Err(e);
                },
            }
        },
        ValVec::Float(v) => {
            match write_numeric(writer, META_DOUBLE, v, compression) {
                Ok(()) => {},
                Err(e) => {
                    return Err(e);
                },
            }
        },
    }
    Ok(writer.len() - start)
}

/// The word lists behind a reference to the bitmaps of a column.
pub open spec fn spec_words(found: Option<&Vec<Vec<i32>>>) -> Option<Seq<Vec<i32>>> {
    match found {
        Some(words) => Some(words@),
        None => None,
    }
}

/// The texts of a list of strings.
pub open spec fn texts(list: Seq<String>) -> Seq<Seq<char>> {
    Seq::new(list.len(), |i: int| list[i]@)
}

/// The texts of a list with one more string.
pub proof fn lemma_texts_push(list: Seq<String>, s: String)
    ensures
        texts(list.push(s)) == texts(list).push(s@),
{
    assert(texts(list.push(s)) =~= texts(list).push(s@));
}

/// The strings of `list` that `banned` does not hold, in their order.
pub open spec fn without(list: Seq<Seq<char>>, banned: Seq<Seq<char>>) -> Seq<Seq<char>>
    decreases list.len(),
{
    if list.len() == 0 {
        list
    } else if banned.contains(list.last()) {
        without(list.drop_last(), banned)
    } else {
        without(list.drop_last(), banned).push(list.last())
    }
}

/// The metric columns of a segment: those that the settings name, and
/// the count wherever the store holds it; but never the timestamps.
pub open spec fn metrics_of(names: Seq<Seq<char>>, metrics: Seq<Seq<char>>) -> Seq<Seq<char>> {
    without(
        distinct(
            if names.contains(COUNT@) {
                metrics.push(COUNT@)
            } else {
                metrics
            },
        ),
        seq![TIMESTAMP@],
    )
}

/// What is left of a list holds a string exactly when the list holds it
/// and it is not banned.
pub proof fn lemma_without_holds(list: Seq<Seq<char>>, banned: Seq<Seq<char>>, x: Seq<char>)
    ensures
        without(list, banned).contains(x) <==> list.contains(x) && !banned.contains(x),
    decreases list.len(),
{
    if list.len() > 0 {
        let front = list.drop_last();
        lemma_without_holds(front, banned, x);
        let kept = without(front, banned);
        if list.contains(x) {
            let i = choose|i: int| 0 <= i < list.len() && list[i] == x;
            if i < front.len() {
                assert(front[i] == x);
            }
        }
        if front.contains(x) {
            let i = choose|i: int| 0 <= i < front.len() && front[i] == x;
            assert(list[i] == x);
        }
        if !banned.contains(list.last()) {
            let grown = kept.push(list.last());
            if kept.contains(x) {
                let i = choose|i: int| 0 <= i < kept.len() && kept[i] == x;
                assert(grown[i] == x);
            }
            if grown.contains(x) {
                let i = choose|i: int| 0 <= i < grown.len() && grown[i] == x;
                if i < kept.len() {
                    assert(kept[i] == x);
                }
            }
            if x == list.last() {
                assert(grown[kept.len() as int] == x);
                assert(list[list.len() - 1] == x);
            }
        }
    }
}

/// The dimension columns of a segment: those that the settings name, or
/// every column of the store where they name none; but no metric, and
/// neither the timestamps nor the count.
pub open spec fn dimensions_of(
    names: Seq<Seq<char>>,
    dimensions: Seq<Seq<char>>,
    metrics: Seq<Seq<char>>,
) -> Seq<Seq<char>> {
    without(
        if dimensions.len() == 0 {
            names
        } else {
            distinct(dimensions)
        },
        distinct(metrics + seq![TIMESTAMP@, COUNT@]),
    )
}

/// The set of the strings of `list`, in the order of `distinct`.
fn distinct_set(list: &Vec<String>) -> (set: IndexSet<String, RandomState>)
    ensures
        set_items(set) == distinct(texts(list@)),
{
    let ghost all = texts(list@);
    let mut set = set_new();
    let n: usize = list.len();
    let mut i: usize = 0;
    assert(all.take(0) =~= Seq::<Seq<char>>::empty());
    while i < n
        invariant
            i <= n,
            n == list@.len(),
            all == texts(list@),
            set_items(set) == distinct(all.take(i as int)),
        decreases n - i,
    {
        let _ = set_insert_full(&mut set, list[i].clone());
        proof {
            assert(all.take(i + 1).drop_last() =~= all.take(i as int));
            assert(all.take(i + 1).last() == list@[i as int]@);
        }
        i = i + 1;
    }
    assert(all.take(n as int) =~= all);
    set
}

/// The strings of a set as a list.
fn set_to_vec(set: &IndexSet<String, RandomState>) -> (list: Vec<String>)
    ensures
        texts(list@) == set_items(*set),
{
    let n: usize = set_len(set);
    let mut list: Vec<String> = Vec::new();
    let mut i: usize = 0;
    while i < n
        invariant
            i <= n,
            n == set_items(*set).len(),
            texts(list@) == set_items(*set).take(i as int),
        decreases n - i,
    {
        let s = set_at(set, i).clone();
        proof {
            lemma_texts_push(list@, s);
        }
        list.push(s);
        i = i + 1;
        assert(texts(list@) =~= set_items(*set).take(i as int));
    }
    assert(set_items(*set).take(n as int) =~= set_items(*set));
    list
}

/// The strings of `list` that the set `banned` does not hold.
fn remove_banned(list: &Vec<String>, banned: &IndexSet<String, RandomState>) -> (kept: Vec<String>)
    ensures
        texts(kept@) == without(texts(list@), set_items(*banned)),
{
    let ghost all = texts(list@);
    let n: usize = list.len();
    let mut kept: Vec<String> = Vec::new();
    let mut i: usize = 0;
    assert(texts(kept@) =~= without(all.take(0), set_items(*banned)));
    while i < n
        invariant
            i <= n,
            n == list@.len(),
            all == texts(list@),
            texts(kept@) == without(all.take(i as int), set_items(*banned)),
        decreases n - i,
    {
        proof {
            assert(all.take(i + 1).drop_last() =~= all.take(i as int));
            assert(all.take(i + 1).last() == list@[i as int]@);
        }
        if !set_contains(banned, &list[i]) {
            kept.push(list[i].clone());
            assert(texts(kept@) =~= without(all.take(i + 1), set_items(*banned)));
        }
        i = i + 1;
    }
    assert(all.take(n as int) =~= all);
    kept
}

/// The names of the columns of a store.
pub fn column_names(store: &Data) -> (list: Vec<String>)
    requires
        store.wf(),
    ensures
        texts(list@) == store.names(),
{
    let n: usize = store.width();
    let mut list: Vec<String> = Vec::new();
    let mut i: usize = 0;
    while i < n
        invariant
            i <= n,
            n == store.names().len(),
            store.wf(),
            texts(list@) == store.names().take(i as int),
        decreases n - i,
    {
        let name = store.name(i).clone();
        proof {
            lemma_texts_push(list@, name);
        }
        list.push(name);
        i = i + 1;
        assert(texts(list@) =~= store.names().take(i as int));
    }
    assert(store.names().take(n as int) =~= store.names());
    list
}

/// The metric columns and the dimension columns of a segment, each in the
/// order in which they are written.
pub fn select(store: &Data, dimensions: &Vec<String>, metrics: &Vec<String>) -> (r: (
    Vec<String>,
    Vec<String>,
))
    requires
        store.wf(),
    ensures
        texts(r.0@) == metrics_of(store.names(), texts(metrics@)),
        texts(r.1@) == dimensions_of(store.names(), texts(dimensions@), texts(metrics@)),
{
    let count = COUNT.to_owned();
    let mut extra: Vec<String> = Vec::new();
    if store.find(&count).is_some() {
        proof {
            lemma_texts_push(extra@, count);
        }
        extra.push(count);
        assert(texts(metrics@) + texts(extra@) =~= texts(metrics@).push(COUNT@));
    } else {
        assert(texts(metrics@) + texts(extra@) =~= texts(metrics@));
    }
    let named = set_to_vec(&distinct_set(&joined(metrics, &extra)));
    let mut stamp: Vec<String> = Vec::new();
    stamp.push(TIMESTAMP.to_owned());
    let stamps = distinct_set(&stamp);
    proof {
        let t = texts(stamp@);
        assert(t =~= seq![TIMESTAMP@]);
        assert(t.drop_last() =~= Seq::<Seq<char>>::empty());
        assert(distinct(t.drop_last()) =~= Seq::<Seq<char>>::empty());
        assert(distinct(t) =~= seq![TIMESTAMP@]);
    }
    let chosen = remove_banned(&named, &stamps);
    let mut barred: Vec<String> = Vec::new();
    let n: usize = metrics.len();
    let mut i: usize = 0;
    while i < n
        invariant
            i <= n,
            n == metrics@.len(),
            texts(barred@) == texts(metrics@).take(i as int),
        decreases n - i,
    {
        proof {
            lemma_texts_push(barred@, metrics@[i as int]);
        }
        barred.push(metrics[i].clone());
        i = i + 1;
        assert(texts(barred@) =~= texts(metrics@).take(i as int));
    }
    assert(texts(metrics@).take(n as int) =~= texts(metrics@));
    let stamp_key = TIMESTAMP.to_owned();
    let count_key = COUNT.to_owned();
    proof {
        lemma_texts_push(barred@, stamp_key);
        lemma_texts_push(barred@.push(stamp_key), count_key);
    }
    barred.push(stamp_key);
    barred.push(count_key);
    assert(texts(barred@) =~= texts(metrics@) + seq![TIMESTAMP@, COUNT@]);
    let banned = distinct_set(&barred);
    let base = if dimensions.len() == 0 {
        column_names(store)
    } else {
        set_to_vec(&distinct_set(dimensions))
    };
    let kept = remove_banned(&base, &banned);
    (chosen, kept)
}

/// The column called `name`.
pub open spec fn column_of(store: &Data, name: Seq<char>) -> ValVec {
    store.columns()[store.names().index_of(name)]
}

/// Why the column called `name` cannot be written, if it cannot: the store
/// must have it, and must be able to write it with the bitmaps given.
pub open spec fn column_problem(
    store: &Data,
    bitmaps: Seq<ColumnBitmaps>,
    name: Seq<char>,
) -> Option<Error> {
    if !store.names().contains(name) {
        Some(Error::MissingColumn)
    } else {
        column_refusal(column_of(store, name), lookup(bitmaps, name))
    }
}

/// The problem of the first of the columns `order` that has one.
pub open spec fn plan_refusal(
    store: &Data,
    bitmaps: Seq<ColumnBitmaps>,
    order: Seq<Seq<char>>,
) -> Option<Error>
    decreases order.len(),
{
    if order.len() == 0 {
        None
    } else {
        match column_problem(store, bitmaps, order[0]) {
            Some(e) => Some(e),
            None => plan_refusal(store, bitmaps, order.drop_first()),
        }
    }
}

/// The columns `order`, one after another.
pub open spec fn columns_bytes(
    store: &Data,
    bitmaps: Seq<ColumnBitmaps>,
    order: Seq<Seq<char>>,
    compression: Compression,
) -> Seq<u8>
    decreases order.len(),
{
    if order.len() == 0 {
        Seq::<u8>::empty()
    } else {
        columns_bytes(store, bitmaps, order.drop_last(), compression) + column_bytes(
            column_of(store, order.last()),
            lookup(bitmaps, order.last()),
            compression,
        )
    }
}

/// Whether every one of the columns `order` fits.
pub open spec fn columns_fit(
    store: &Data,
    bitmaps: Seq<ColumnBitmaps>,
    order: Seq<Seq<char>>,
    compression: Compression,
) -> bool {
    forall|k: int|
        0 <= k < order.len() ==> column_fits(
            column_of(store, #[trigger] order[k]),
            lookup(bitmaps, order[k]),
            compression,
        )
}

/// The entries of a table of names: each name in UTF-8.
pub open spec fn name_entries(names: Seq<Seq<char>>) -> Seq<Seq<u8>> {
    Seq::new(names.len(), |i: int| encode_utf8(names[i]))
}

/// Why a store cannot become a segment, if it cannot: it needs rows, an
/// integer column of timestamps, columns of one length, and its rows in
/// the order of their timestamps.
pub open spec fn store_refusal(store: &Data) -> Option<Error> {
    if store.spec_rows() == 0 {
        Some(Error::EmptySegment)
    } else {
        match store.get(TIMESTAMP@) {
            None => Some(Error::MissingColumn),
            Some(ColumnData::Integer(stamps)) => if !store.rectangular() {
                Some(Error::RowCountMismatch)
            } else if !non_decreasing(stamps) {
                Some(Error::NotSorted)
            } else {
                None
            },
            Some(_) => Some(Error::TypeMismatch),
        }
    }
}

/// A column in which no value is smaller than the one before it is in
/// order throughout.
pub proof fn lemma_stepwise_order(s: Seq<i64>, i: int, j: int)
    requires
        forall|k: int| 0 <= k < s.len() - 1 ==> #[trigger] s[k] <= s[k + 1],
        0 <= i <= j < s.len(),
    ensures
        s[i] <= s[j],
    decreases j - i,
{
    if i < j {
        lemma_stepwise_order(s, i, j - 1);
        assert(s[j - 1] <= s[j - 1 + 1]);
    }
}

/// Whether the values of a column are in order.
pub fn is_non_decreasing(column: &Vec<i64>) -> (b: bool)
    ensures
        b == non_decreasing(column@),
{
    let n: usize = column.len();
    if n == 0 {
        return true;
    }
    let mut i: usize = 0;
    while i < n - 1
        invariant
            n == column@.len(),
            n > 0,
            i <= n - 1,
            forall|k: int| 0 <= k < i ==> #[trigger] column@[k] <= column@[k + 1],
        decreases n - 1 - i,
    {
        if column[i] > column[i + 1] {
            return false;
        }
        i = i + 1;
    }
    proof {
        assert forall|a: int, b: int| 0 <= a <= b < column@.len() implies column@[a] <= column@[
            b
        ] by {
            lemma_stepwise_order(column@, a, b);
        }
    }
    true
}

/// Finds out whether a store can become a segment, and returns its first
/// timestamp.
pub fn examine_store(store: &Data) -> (r: Result<i64, Error>)
    requires
        store.wf(),
    ensures
        match store_refusal(store) {
            Some(e) => r == Err::<i64, Error>(e),
            None => r == Ok::<i64, Error>(store.timestamps().unwrap()[0]),
        },
{
    if store.rows() == 0 {
        return Err(Error::EmptySegment);
    }
    let key = TIMESTAMP.to_owned();
    let at: usize = match store.find(&key) {
        Some(i) => i,
        None => {
            return Err(Error::MissingColumn);
        },
    };
    match store.column(at) {
        ValVec::Integer(stamps) => {
            if !store.is_rectangular() {
                return Err(Error::RowCountMismatch);
            }
            if !is_non_decreasing(stamps) {
                return Err(Error::NotSorted);
            }
            proof {
                store.lemma_rows_agree(at as int);
            }
            Ok(stamps[0])
        },
        _ => Err(Error::TypeMismatch),
    }
}

/// Finds the problem of the first of the columns `order` that has one.
pub fn examine_plan(store: &Data, bitmaps: &Vec<ColumnBitmaps>, order: &Vec<String>) -> (r: Option<
    Error,
>)
    requires
        store.wf(),
    ensures
        r == plan_refusal(store, bitmaps@, texts(order@)),
{
    let ghost all = texts(order@);
    let n: usize = order.len();
    let mut k: usize = 0;
    assert(all.skip(0) =~= all);
    while k < n
        invariant
            k <= n,
            n == order@.len(),
            all == texts(order@),
            store.wf(),
            plan_refusal(store, bitmaps@, all) == plan_refusal(store, bitmaps@, all.skip(k as int)),
        decreases n - k,
    {
        proof {
            assert(all.skip(k as int).drop_first() =~= all.skip(k + 1));
            assert(all.skip(k as int)[0] == order@[k as int]@);
        }
        match store.find(&order[k]) {
            None => {
                return Some(Error::MissingColumn);
            },
            Some(i) => match store.column(i) {
                ValVec::IndexedString(strings) => match find_bitmaps(bitmaps, &order[k]) {
                    None => {
                        return Some(Error::MissingBitmap);
                    },
                    Some(words) => {
                        if !strings.in_order() {
                            return Some(Error::NotSorted);
                        }
                        if words.len() != strings.dictionary_len() {
                            return Some(Error::MissingBitmap);
                        }
                    },
                },
                _ => {},
            },
        }
        k = k + 1;
    }
    None
}

/// The columns `order` one after another, and for each the offset at which
/// it ends.
pub fn write_columns(
    store: &Data,
    bitmaps: &Vec<ColumnBitmaps>,
    order: &Vec<String>,
    compression: Compression,
) -> (r: Result<(Vec<u8>, Vec<usize>), Error>)
    requires
        store.wf(),
        plan_refusal(store, bitmaps@, texts(order@)) is None,
    ensures
        match r {
            Ok((bytes, ends)) => {
                &&& columns_fit(store, bitmaps@, texts(order@), compression)
                &&& bytes@ == columns_bytes(store, bitmaps@, texts(order@), compression)
                &&& ends@.len() == order@.len()
                &&& forall|k: int|
                    0 <= k < ends@.len() ==> #[trigger] ends@[k] == columns_bytes(
                        store,
                        bitmaps@,
                        texts(order@).take(k + 1),
                        compression,
                    ).len()
            },
            Err(e) => (e == Error::EncodingOverflow && !columns_fit(
                store,
                bitmaps@,
                texts(order@),
                compression,
            )) || (e == Error::Packaging && compression == Compression::LZ4),
        },
{
    let ghost all = texts(order@);
    let n: usize = order.len();
    let mut bytes: Vec<u8> = Vec::new();
    let mut ends: Vec<usize> = Vec::new();
    let mut k: usize = 0;
    assert(all.skip(0) =~= all);
    while k < n
        invariant
            k <= n,
            n == order@.len(),
            all == texts(order@),
            store.wf(),
            plan_refusal(store, bitmaps@, all.skip(k as int)) is None,
            bytes@ == columns_bytes(store, bitmaps@, all.take(k as int), compression),
            ends@.len() == k,
            forall|a: int|
                0 <= a < k ==> column_fits(
                    column_of(store, #[trigger] all[a]),
                    lookup(bitmaps@, all[a]),
                    compression,
                ),
            forall|a: int|
                0 <= a < k ==> #[trigger] ends@[a] == columns_bytes(
                    store,
                    bitmaps@,
                    all.take(a + 1),
                    compression,
                ).len(),
        decreases n - k,
    {
        let ghost name = all[k as int];
        proof {
            assert(all.skip(k as int).drop_first() =~= all.skip(k + 1));
            assert(all.skip(k as int)[0] == name);
            assert(all.take(k + 1).drop_last() =~= all.take(k as int));
            assert(all.take(k + 1).last() == name);
            assert(order@[k as int]@ == name);
        }
        let at: usize = store.find(&order[k]).unwrap();
        let found = find_bitmaps(bitmaps, &order[k]);
        match write_column(&mut bytes, store.column(at), found, compression) {
            Ok(_) => {},
            Err(e) => {
                return Err(e);
            },
        }
        ends.push(bytes.len());
        k = k + 1;
    }
    assert(all.take(n as int) =~= all);
    Ok((bytes, ends))
}

/// Appends a table of names, or nothing when the table does not fit.
pub fn write_columns_index(writer: &mut Vec<u8>, names: &Vec<String>) -> (r: Result<(), Error>)
    ensures
        r is Ok <==> table_fits(name_entries(texts(names@))),
        match r {
            Ok(()) => final(writer)@ == old(writer)@ + table(0, name_entries(texts(names@))),
            Err(e) => e == Error::EncodingOverflow && final(writer)@ == old(writer)@,
        },
{
    let ghost all = name_entries(texts(names@));
    let n: usize = names.len();
    let mut t = Table::new();
    let mut k: usize = 0;
    assert(all.take(0) =~= t.entries());
    while k < n
        invariant
            k <= n,
            n == names@.len(),
            all == name_entries(texts(names@)),
            t.wf(),
            t.entries() == all.take(k as int),
        decreases n - k,
    {
        let bytes = names[k].as_str().as_bytes();
        proof {
            assert(bytes@ == all[k as int]);
            assert(all.take(k as int).push(all[k as int]) =~= all.take(k + 1));
        }
        match t.push(bytes) {
            Ok(()) => {},
            Err(e) => {
                proof {
                    if table_fits(all) {
                        lemma_fits_prefix(all, k + 1);
                    }
                }
                return Err(e);
            },
        }
        k = k + 1;
    }
    proof {
        assert(all.take(n as int) =~= all);
        t.lemma_fits();
    }
    t.write(writer, 0);
    Ok(())
}

/// Appends the version of the format.
pub fn write_version(writer: &mut Vec<u8>)
    ensures
        final(writer)@ == old(writer)@ + be_bytes(FORMAT_VERSION as int, 4),
{
    put_u32_be(writer, FORMAT_VERSION);
}

/// Appends the name of the loader of the segment.
pub fn write_factory(writer: &mut Vec<u8>)
    ensures
        final(writer)@ == old(writer)@ + FACTORY.spec_bytes(),
{
    put_bytes(writer, FACTORY.as_bytes());
}

/// The columns of a segment in the order in which they are written: the
/// timestamps, the metrics, the dimensions.
pub open spec fn order_of(store: &Data, conf: &Conf) -> Seq<Seq<char>> {
    seq![TIMESTAMP@] + listed_of(store, conf)
}

/// The columns that the first table of names lists: the metrics, then the
/// dimensions.
pub open spec fn listed_of(store: &Data, conf: &Conf) -> Seq<Seq<char>> {
    metrics_of(store.names(), texts(conf.metrics@)) + dimensions_of(
        store.names(),
        texts(conf.dimensions@),
        texts(conf.metrics@),
    )
}

/// Why a store cannot be written as a segment, if it cannot.
pub open spec fn segment_refusal(
    store: &Data,
    conf: &Conf,
    bitmaps: Seq<ColumnBitmaps>,
) -> Option<Error> {
    match store_refusal(store) {
        Some(e) => Some(e),
        None => plan_refusal(store, bitmaps, order_of(store, conf)),
    }
}

/// The segment up to the description that closes it: the columns, the
/// table of the metrics and dimensions, the table of the dimensions, the
/// first timestamp and the timestamp one day after it, and the kind of
/// the bitmaps behind its length.
pub open spec fn segment_body(store: &Data, conf: &Conf, bitmaps: Seq<ColumnBitmaps>) -> Seq<u8> {
    let first = store.timestamps().unwrap()[0];
    columns_bytes(store, bitmaps, order_of(store, conf), conf.compression) + table(
        0,
        name_entries(listed_of(store, conf)),
    ) + table(
        0,
        name_entries(
            dimensions_of(store.names(), texts(conf.dimensions@), texts(conf.metrics@)),
        ),
    ) + be_bytes(bits64(first), 8) + be_bytes(bits64((first + DAY_MILLIS) as i64), 8) + be_bytes(
        BITMAP_TYPE.spec_bytes().len() as int,
        4,
    ) + BITMAP_TYPE.spec_bytes()
}

/// The segment file.
pub open spec fn segment_bytes(store: &Data, conf: &Conf, bitmaps: Seq<ColumnBitmaps>) -> Seq<u8> {
    segment_body(store, conf, bitmaps) + SEGMENT_META.spec_bytes()
}

/// Whether every count and length of the segment fits its field, and the
/// end of the time range is a timestamp.
pub open spec fn segment_fits(store: &Data, conf: &Conf, bitmaps: Seq<ColumnBitmaps>) -> bool {
    &&& columns_fit(store, bitmaps, order_of(store, conf), conf.compression)
    &&& table_fits(name_entries(listed_of(store, conf)))
    &&& table_fits(
        name_entries(
            dimensions_of(store.names(), texts(conf.dimensions@), texts(conf.metrics@)),
        ),
    )
    &&& store.timestamps().unwrap()[0] + DAY_MILLIS <= i64::MAX
    &&& BITMAP_TYPE.spec_bytes().len() <= u32::MAX
}

/// For each of the columns `order`, the offset at which it ends.
pub open spec fn spans(
    store: &Data,
    bitmaps: Seq<ColumnBitmaps>,
    order: Seq<Seq<char>>,
    compression: Compression,
) -> Seq<nat> {
    Seq::new(
        order.len(),
        |k: int| columns_bytes(store, bitmaps, order.take(k + 1), compression).len(),
    )
}

/// The text index of the segment, which is written only where the
/// settings name the columns.
pub open spec fn segment_index(store: &Data, conf: &Conf, bitmaps: Seq<ColumnBitmaps>) -> Seq<u8> {
    if conf.spec_explicit_selection() {
        pieces_bytes(
            index_pieces(
                order_of(store, conf),
                spans(store, bitmaps, order_of(store, conf), conf.compression),
                metrics_of(store.names(), texts(conf.metrics@)).len() as int,
                segment_body(store, conf, bitmaps).len(),
                segment_bytes(store, conf, bitmaps).len(),
            ),
        )
    } else {
        Seq::<u8>::empty()
    }
}

/// Wherever the store holds the count, the count is among the listed
/// columns of its segment.
pub proof fn lemma_count_is_listed(store: &Data, conf: &Conf)
    requires
        store.names().contains(COUNT@),
    ensures
        listed_of(store, conf).contains(COUNT@),
{
    reveal_strlit("count");
    reveal_strlit("timestamp");
    assert(COUNT@.len() != TIMESTAMP@.len());
    let wanted = texts(conf.metrics@).push(COUNT@);
    assert(wanted[wanted.len() - 1] == COUNT@);
    lemma_with_texts_holds(Seq::empty(), wanted, COUNT@);
    lemma_without_holds(distinct(wanted), seq![TIMESTAMP@], COUNT@);
    if seq![TIMESTAMP@].contains(COUNT@) {
        let i = choose|i: int| 0 <= i < 1 && seq![TIMESTAMP@][i] == COUNT@;
        assert(TIMESTAMP@ == COUNT@);
    }
    let metrics = metrics_of(store.names(), texts(conf.metrics@));
    let i = choose|i: int| 0 <= i < metrics.len() && metrics[i] == COUNT@;
    assert(listed_of(store, conf)[i] == COUNT@);
}

/// Where the settings name no dimensions, every column of the store but
/// the timestamps is among the listed columns of its segment.
pub proof fn lemma_all_listed(store: &Data, conf: &Conf, name: Seq<char>)
    requires
        conf.dimensions@.len() == 0,
        store.names().contains(name),
        name != TIMESTAMP@,
    ensures
        listed_of(store, conf).contains(name),
{
    let asked = texts(conf.metrics@);
    let wanted = if store.names().contains(COUNT@) {
        asked.push(COUNT@)
    } else {
        asked
    };
    let metrics = metrics_of(store.names(), asked);
    let dimensions = dimensions_of(store.names(), texts(conf.dimensions@), asked);
    let barred = asked + seq![TIMESTAMP@, COUNT@];
    lemma_with_texts_holds(Seq::empty(), wanted, name);
    lemma_with_texts_holds(Seq::empty(), barred, name);
    lemma_without_holds(distinct(wanted), seq![TIMESTAMP@], name);
    lemma_without_holds(store.names(), distinct(barred), name);
    if seq![TIMESTAMP@].contains(name) {
        let i = choose|i: int| 0 <= i < 1 && seq![TIMESTAMP@][i] == name;
    }
    if !wanted.contains(name) {
        // not a metric, so a dimension: the name is not barred
        if barred.contains(name) {
            let i = choose|i: int| 0 <= i < barred.len() && barred[i] == name;
            if i < asked.len() {
                assert(asked[i] == name);
                assert(wanted[i] == name);
            } else if i == asked.len() + 1 {
                assert(name == COUNT@);
                assert(wanted[wanted.len() - 1] == name);
            }
        }
        let i = choose|i: int| 0 <= i < dimensions.len() && dimensions[i] == name;
        assert(listed_of(store, conf)[metrics.len() + i] == name);
    } else {
        let i = choose|i: int| 0 <= i < metrics.len() && metrics[i] == name;
        assert(listed_of(store, conf)[i] == name);
    }
}

/// A list with the strings of `a` followed by those of `b`.
fn joined(a: &Vec<String>, b: &Vec<String>) -> (r: Vec<String>)
    ensures
        texts(r@) == texts(a@) + texts(b@),
{
    let mut r: Vec<String> = Vec::new();
    let mut i: usize = 0;
    while i < a.len()
        invariant
            i <= a@.len(),
            texts(r@) == texts(a@).take(i as int),
        decreases a@.len() - i,
    {
        proof {
            lemma_texts_push(r@, a@[i as int]);
        }
        r.push(a[i].clone());
        i = i + 1;
        assert(texts(r@) =~= texts(a@).take(i as int));
    }
    assert(texts(a@).take(a@.len() as int) =~= texts(a@));
    let mut j: usize = 0;
    while j < b.len()
        invariant
            j <= b@.len(),
            texts(r@) == texts(a@) + texts(b@).take(j as int),
        decreases b@.len() - j,
    {
        proof {
            lemma_texts_push(r@, b@[j as int]);
        }
        r.push(b[j].clone());
        j = j + 1;
        assert(texts(r@) =~= texts(a@) + texts(b@).take(j as int));
    }
    assert(texts(b@).take(b@.len() as int) =~= texts(b@));
    r
}

impl Data {
    /// Appends the column called `key`, or nothing when the store lacks the
    /// column, the column is refused, one of its numbers does not fit, or
    /// the compressor fails. Returns the number of bytes appended.
    pub fn write_key(
        &self,
        writer: &mut Vec<u8>,
        key: &String,
        bitmaps: &Vec<ColumnBitmaps>,
        compression: Compression,
    ) -> (r: Result<usize, Error>)
        requires
            self.wf(),
        ensures
            r is Err ==> final(writer)@ == old(writer)@,
            column_problem(self, bitmaps@, key@) matches Some(e) ==> r == Err::<usize, Error>(e),
            column_problem(self, bitmaps@, key@) is None ==> match r {
                Ok(n) => column_fits(column_of(self, key@), lookup(bitmaps@, key@), compression)
                    && final(writer)@ == old(writer)@ + column_bytes(
                    column_of(self, key@),
                    lookup(bitmaps@, key@),
                    compression,
                ) && n == column_bytes(
                    column_of(self, key@),
                    lookup(bitmaps@, key@),
                    compression,
                ).len(),
                Err(e) => (e == Error::EncodingOverflow && !column_fits(
                    column_of(self, key@),
                    lookup(bitmaps@, key@),
                    compression,
                )) || (e == Error::Packaging && compression == Compression::LZ4),
            },
    {
        match self.find(key) {
            None => Err(Error::MissingColumn),
            Some(i) => write_column(writer, self.column(i), find_bitmaps(bitmaps, key), compression),
        }
    }

    /// Appends the segment file to `data_writer` and, where the settings
    /// name the columns, the text index to `meta_writer`. `bitmaps` holds,
    /// for each string column that is written, the words of the bitmaps of
    /// its dictionary entries. Nothing is appended to either when the
    /// store is refused, a number does not fit, or the compressor fails.
    pub fn write_data(
        &self,
        conf: &Conf,
        bitmaps: &Vec<ColumnBitmaps>,
        data_writer: &mut Vec<u8>,
        meta_writer: &mut Vec<u8>,
    ) -> (r: Result<(), Error>)
        requires
            self.wf(),
        ensures
            r is Err ==> final(data_writer)@ == old(data_writer)@ && final(meta_writer)@ == old(
                meta_writer,
            )@,
            segment_refusal(self, conf, bitmaps@) matches Some(e) ==> r == Err::<(), Error>(e),
            segment_refusal(self, conf, bitmaps@) is None ==> match r {
                Ok(()) => segment_fits(self, conf, bitmaps@) && final(data_writer)@ == old(
                    data_writer,
                )@ + segment_bytes(self, conf, bitmaps@) && final(meta_writer)@ == old(
                    meta_writer,
                )@ + segment_index(self, conf, bitmaps@),
                Err(e) => (e == Error::EncodingOverflow && !segment_fits(self, conf, bitmaps@))
                    || (e == Error::Packaging && conf.compression == Compression::LZ4),
            },
    {
        let first: i64 = match examine_store(self) {
            Ok(t) => t,
            Err(e) => {
                return Err(e);
            },
        };
        let (metrics, dimensions) = select(self, &conf.dimensions, &conf.metrics);
        let listed = joined(&metrics, &dimensions);
        let mut head: Vec<String> = Vec::new();
        head.push(TIMESTAMP.to_owned());
        assert(texts(head@) =~= seq![TIMESTAMP@]);
        let order = joined(&head, &listed);
        assert(texts(order@) == order_of(self, conf));
        match examine_plan(self, bitmaps, &order) {
            Some(e) => {
                return Err(e);
            },
            None => {},
        }
        let (mut bytes, ends) = match write_columns(self, bitmaps, &order, conf.compression) {
            Ok(done) => done,
            Err(e) => {
                return Err(e);
            },
        };
        match write_columns_index(&mut bytes, &listed) {
            Ok(()) => {},
            Err(e) => {
                return Err(e);
            },
        }
        match write_columns_index(&mut bytes, &dimensions) {
            Ok(()) => {},
            Err(e) => {
                return Err(e);
            },
        }
        let kind = BITMAP_TYPE.as_bytes();
        if first > i64::MAX - DAY_MILLIS || kind.len() > 0xFFFF_FFFF {
            return Err(Error::EncodingOverflow);
        }
        put_i64_be(&mut bytes, first);
        put_i64_be(&mut bytes, first + DAY_MILLIS);
        put_u32_be(&mut bytes, kind.len() as u32);
        put_bytes(&mut bytes, kind);
        assert(bytes@ =~= segment_body(self, conf, bitmaps@));
        let body_end: usize = bytes.len();
        put_bytes(&mut bytes, SEGMENT_META.as_bytes());
        assert(bytes@ =~= segment_bytes(self, conf, bitmaps@));
        if conf.explicit_selection() {
            proof {
                assert(offsets_of(ends@) =~= spans(
                    self,
                    bitmaps@,
                    order_of(self, conf),
                    conf.compression,
                ));
            }
            let text = index_text(&order, &ends, metrics.len(), body_end, bytes.len());
            put_bytes(meta_writer, text.as_slice());
        } else {
            assert(meta_writer@ =~= old(meta_writer)@ + segment_index(self, conf, bitmaps@));
        }
        put_bytes(data_writer, bytes.as_slice());
        Ok(())
    }

    /// The files of the segment of this store, or the reason why there is
    /// none: the store is refused, a number does not fit, or the
    /// compressor fails.
    pub fn write(&self, conf: &Conf, bitmaps: &Vec<ColumnBitmaps>) -> (r: Result<
        SegmentFiles,
        Error,
    >)
        requires
            self.wf(),
        ensures
            segment_refusal(self, conf, bitmaps@) matches Some(e) ==> r == Err::<
                SegmentFiles,
                Error,
            >(e),
            segment_refusal(self, conf, bitmaps@) is None ==> match r {
                Ok(files) => {
                    &&& segment_fits(self, conf, bitmaps@)
                    &&& files.version@ == be_bytes(FORMAT_VERSION as int, 4)
                    &&& files.factory@ == FACTORY.spec_bytes()
                    &&& files.data@ == segment_bytes(self, conf, bitmaps@)
                    &&& files.index@ == segment_index(self, conf, bitmaps@)
                },
                Err(e) => (e == Error::EncodingOverflow && !segment_fits(self, conf, bitmaps@))
                    || (e == Error::Packaging && conf.compression == Compression::LZ4),
            },
    {
        let mut files = SegmentFiles {
            version: Vec::new(),
            factory: Vec::new(),
            data: Vec::new(),
            index: Vec::new(),
        };
        match self.write_data(conf, bitmaps, &mut files.data, &mut files.index) {
            Ok(()) => {},
            Err(e) => {
                return Err(e);
            },
        }
        write_version(&mut files.version);
        write_factory(&mut files.factory);
        assert(files.data@ =~= segment_bytes(self, conf, bitmaps@));
        assert(files.index@ =~= segment_index(self, conf, bitmaps@));
        assert(files.version@ =~= be_bytes(FORMAT_VERSION as int, 4));
        assert(files.factory@ =~= FACTORY.spec_bytes());
        Ok(files)
    }
}

} // verus!
