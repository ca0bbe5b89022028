//! The column store: named columns that grow record by record, merge with
//! the stores of other workers, and are sorted by their timestamps.

use vstd::prelude::*;
use crate::column::{ColumnData, ValVec};
use crate::error::Error;
use crate::interner::IS;
use crate::text::{with_text, with_texts};
use crate::permutation::{
    apply, compute, is_permutation, lemma_permuted_sorted, non_decreasing, sorted_by_key,
};

verus! {

/// The name of the column that orders the rows.
pub const TIMESTAMP: &'static str = "timestamp";

/// The name of the column that counts the records behind each row.
pub const COUNT: &'static str = "count";

/// A column after one value has arrived for it: a column of the kind of
/// the value gains a row, a column of another kind stays as it is.
pub open spec fn pushed(column: ColumnData, value: ColumnData) -> ColumnData {
    if column.same_kind(value) {
        column.concat(value)
    } else {
        column
    }
}

/// A column of `n` rows that each hold one.
pub open spec fn ones(n: nat) -> Seq<i64> {
    Seq::new(n, |i: int| 1i64)
}

/// Every column of `after` is the column of `before` at the same place,
/// with its rows moved as `p` says.
pub open spec fn arranged(before: Seq<ColumnData>, after: Seq<ColumnData>, p: Seq<usize>) -> bool {
    &&& after.len() == before.len()
    &&& forall|i: int| 0 <= i < before.len() ==> #[trigger] after[i] == before[i].permuted(p)
}

/// The columns of a store after the rows `value` have arrived under `name`:
/// they go behind the rows of the column of that name, or become a new
/// column where the store has none.
pub open spec fn datas_with(
    names: Seq<Seq<char>>,
    datas: Seq<ColumnData>,
    name: Seq<char>,
    value: ColumnData,
) -> Seq<ColumnData> {
    if names.contains(name) {
        datas.update(names.index_of(name), pushed(datas[names.index_of(name)], value))
    } else {
        datas.push(value)
    }
}

/// The columns of a store after the columns `other_datas`, called `others`,
/// have arrived one after another.
pub open spec fn merged_datas(
    names: Seq<Seq<char>>,
    datas: Seq<ColumnData>,
    others: Seq<Seq<char>>,
    other_datas: Seq<ColumnData>,
) -> Seq<ColumnData>
    decreases others.len(),
{
    if others.len() == 0 {
        datas
    } else {
        datas_with(
            with_texts(names, others.drop_last()),
            merged_datas(names, datas, others.drop_last(), other_datas.drop_last()),
            others.last(),
            other_datas.last(),
        )
    }
}

/// Every column called `name` is of the kind of `value`.
pub open spec fn agrees(
    names: Seq<Seq<char>>,
    datas: Seq<ColumnData>,
    name: Seq<char>,
    value: ColumnData,
) -> bool {
    forall|i: int| 0 <= i < names.len() && #[trigger] names[i] == name ==> datas[i].same_kind(value)
}

/// Some name stands for columns of different kinds in the two stores.
pub open spec fn conflicting(
    names: Seq<Seq<char>>,
    datas: Seq<ColumnData>,
    others: Seq<Seq<char>>,
    other_datas: Seq<ColumnData>,
) -> bool {
    exists|j: int| 0 <= j < others.len() && !#[trigger] agrees(names, datas, others[j], other_datas[j])
}

/// A merge keeps the columns that the store had, in their places; new
/// columns come behind them.
pub proof fn lemma_merge_keeps_names(
    names: Seq<Seq<char>>,
    datas: Seq<ColumnData>,
    others: Seq<Seq<char>>,
    other_datas: Seq<ColumnData>,
)
    requires
        names.len() == datas.len(),
    ensures
        names.len() <= with_texts(names, others).len(),
        with_texts(names, others).len() == merged_datas(names, datas, others, other_datas).len(),
        forall|i: int| 0 <= i < names.len() ==> with_texts(names, others)[i] == names[i],
    decreases others.len(),
{
    if others.len() > 0 {
        lemma_merge_keeps_names(names, datas, others.drop_last(), other_datas.drop_last());
    }
}

/// Merging two stores that have no name in common gives the columns of
/// the first followed by the columns of the second, each as it was.
pub proof fn lemma_merge_disjoint(
    names: Seq<Seq<char>>,
    datas: Seq<ColumnData>,
    others: Seq<Seq<char>>,
    other_datas: Seq<ColumnData>,
)
    requires
        names.len() == datas.len(),
        others.len() == other_datas.len(),
        others.no_duplicates(),
        forall|i: int, j: int|
            0 <= i < names.len() && 0 <= j < others.len() ==> names[i] != others[j],
    ensures
        with_texts(names, others) == names + others,
        merged_datas(names, datas, others, other_datas) == datas + other_datas,
    decreases others.len(),
{
    if others.len() == 0 {
        assert(names + others =~= names);
        assert(datas + other_datas =~= datas);
    } else {
        let front = others.drop_last();
        let front_datas = other_datas.drop_last();
        lemma_merge_disjoint(names, datas, front, front_datas);
        let before = names + front;
        let name = others.last();
        if before.contains(name) {
            let x = choose|x: int| 0 <= x < before.len() && before[x] == name;
            if x < names.len() {
                assert(names[x] != others[others.len() - 1]);
            } else {
                assert(others[x - names.len()] != others[others.len() - 1]);
            }
        }
        assert(before.push(name) =~= names + others);
        assert((datas + front_datas).push(other_datas.last()) =~= datas + other_datas);
    }
}

/// After a merge, a column that both stores had, of the same kind in both,
/// holds its rows from the first store followed by its rows from the
/// second, so its length is the sum of the two lengths; a column that
/// only the first store had is as it was.
pub proof fn lemma_merge_overlap(
    names: Seq<Seq<char>>,
    datas: Seq<ColumnData>,
    others: Seq<Seq<char>>,
    other_datas: Seq<ColumnData>,
    i: int,
)
    requires
        names.len() == datas.len(),
        others.len() == other_datas.len(),
        names.no_duplicates(),
        others.no_duplicates(),
        0 <= i < names.len(),
    ensures
        with_texts(names, others)[i] == names[i],
        !others.contains(names[i]) ==> merged_datas(names, datas, others, other_datas)[i]
            == datas[i],
        forall|j: int|
            0 <= j < others.len() && #[trigger] others[j] == names[i] && datas[i].same_kind(
                other_datas[j],
            ) ==> merged_datas(names, datas, others, other_datas)[i] == datas[i].concat(
                other_datas[j],
            ) && merged_datas(names, datas, others, other_datas)[i].len() == datas[i].len()
                + other_datas[j].len(),
    decreases others.len(),
{
    lemma_merge_keeps_names(names, datas, others, other_datas);
    if others.len() > 0 {
        let front = others.drop_last();
        let front_datas = other_datas.drop_last();
        let last = others.len() - 1;
        lemma_merge_overlap(names, datas, front, front_datas, i);
        lemma_merge_keeps_names(names, datas, front, front_datas);
        lemma_merge_keeps_distinct(names, front);
        let before = with_texts(names, front);
        let before_datas = merged_datas(names, datas, front, front_datas);
        let name = others.last();
        if name == names[i] {
            assert(before[i] == name);
            assert(before.contains(name));
            let at = before.index_of(name);
            assert(0 <= at < before.len() && before[at] == name);
            assert(at == i);
            assert(!front.contains(names[i])) by {
                if front.contains(names[i]) {
                    let x = choose|x: int| 0 <= x < front.len() && front[x] == names[i];
                    assert(others[x] == others[last]);
                }
            }
            assert forall|j: int|
                0 <= j < others.len() && #[trigger] others[j] == names[i] implies j == last by {
                if j != last {
                    assert(others[j] != others[last]);
                }
            }
            let joined = datas[i].concat(other_datas[last]);
            match (datas[i], other_datas[last]) {
                (ColumnData::Text(a), ColumnData::Text(b)) => {
                    assert((a + b).len() == a.len() + b.len());
                },
                (ColumnData::Integer(a), ColumnData::Integer(b)) => {
                    assert((a + b).len() == a.len() + b.len());
                },
                (ColumnData::Float(a), ColumnData::Float(b)) => {
                    assert((a + b).len() == a.len() + b.len());
                },
                _ => {},
            }
        } else {
            if before.contains(name) {
                let at = before.index_of(name);
                assert(0 <= at < before.len() && before[at] == name);
                assert(at != i);
            }
            assert(others.contains(names[i]) ==> front.contains(names[i])) by {
                if others.contains(names[i]) {
                    let x = choose|x: int| 0 <= x < others.len() && others[x] == names[i];
                    assert(front[x] == names[i]);
                }
            }
            assert forall|j: int|
                0 <= j < others.len() && #[trigger] others[j] == names[i] implies 0 <= j
                < front.len() && front[j] == names[i] && front_datas[j] == other_datas[j] by {
            }
        }
    }
}

/// A merge of distinct names into distinct names gives distinct names.
pub proof fn lemma_merge_keeps_distinct(names: Seq<Seq<char>>, others: Seq<Seq<char>>)
    requires
        names.no_duplicates(),
    ensures
        with_texts(names, others).no_duplicates(),
    decreases others.len(),
{
    if others.len() > 0 {
        lemma_merge_keeps_distinct(names, others.drop_last());
        let before = with_texts(names, others.drop_last());
        if !before.contains(others.last()) {
            assert forall|a: int, b: int|
                0 <= a < before.len() + 1 && 0 <= b < before.len() + 1 && a != b implies before.push(
                others.last(),
            )[a] != before.push(others.last())[b] by {
                if a < before.len() {
                    assert(before.contains(before[a]));
                }
                if b < before.len() {
                    assert(before.contains(before[b]));
                }
            }
        }
    }
}

/// A set of named columns.
#[derive(Debug)]
pub struct Data {
    names: Vec<String>,
    columns: Vec<ValVec>,
}

impl Data {
    /// The names of the columns, in the order in which they arrived.
    pub closed spec fn names(&self) -> Seq<Seq<char>> {
        Seq::new(self.names@.len(), |i: int| self.names@[i]@)
    }

    /// The columns, in the order of their names.
    pub closed spec fn columns(&self) -> Seq<ValVec> {
        self.columns@
    }

    /// The rows of each column.
    pub open spec fn datas(&self) -> Seq<ColumnData> {
        Seq::new(self.columns().len(), |i: int| self.columns()[i].data())
    }

    /// Every column has one name, no two columns have the same, and every
    /// column is well formed.
    pub open spec fn wf(&self) -> bool {
        &&& self.names().len() == self.columns().len()
        &&& self.names().no_duplicates()
        &&& forall|i: int| 0 <= i < self.columns().len() ==> (#[trigger] self.columns()[i]).wf()
    }

    /// Where the column called `name` stands, if there is one.
    pub open spec fn position(&self, name: Seq<char>) -> Option<int> {
        if self.names().contains(name) {
            Some(self.names().index_of(name))
        } else {
            None
        }
    }

    /// The rows of the column called `name`, if there is one.
    pub open spec fn get(&self, name: Seq<char>) -> Option<ColumnData> {
        match self.position(name) {
            Some(i) => Some(self.datas()[i]),
            None => None,
        }
    }

    /// Whether all columns have the same number of rows.
    pub open spec fn rectangular(&self) -> bool {
        forall|i: int, j: int|
            0 <= i < self.datas().len() && 0 <= j < self.datas().len() ==> (
            #[trigger] self.datas()[i]).len() == (#[trigger] self.datas()[j]).len()
    }

    /// The number of rows: that of the first column, or zero in a store
    /// without columns.
    pub open spec fn spec_rows(&self) -> nat {
        if self.datas().len() == 0 {
            0
        } else {
            self.datas()[0].len()
        }
    }

    /// A name stands where it is found.
    pub proof fn lemma_position(&self, i: int)
        requires
            self.names().no_duplicates(),
            0 <= i < self.names().len(),
        ensures
            self.position(self.names()[i]) == Some(i),
    {
        let name = self.names()[i];
        assert(self.names().contains(name));
        let j = self.names().index_of(name);
        assert(0 <= j < self.names().len() && self.names()[j] == name);
    }

    /// A store without columns.
    pub fn new() -> (d: Data)
        ensures
            d.wf(),
            d.names() == Seq::<Seq<char>>::empty(),
            d.datas() == Seq::<ColumnData>::empty(),
    {
        let d = Data { names: Vec::new(), columns: Vec::new() };
        assert(d.names() =~= Seq::<Seq<char>>::empty());
        assert(d.datas() =~= Seq::<ColumnData>::empty());
        d
    }

    /// Where the column called `key` stands.
    pub fn find(&self, key: &String) -> (r: Option<usize>)
        requires
            self.wf(),
        ensures
            match r {
                Some(i) => self.position(key@) == Some(i as int) && i < self.names().len()
                    && self.names()[i as int] == key@,
                None => self.position(key@) is None,
            },
    {
        let n: usize = self.names.len();
        let mut i: usize = 0;
        while i < n
            invariant
                i <= n,
                n == self.names@.len(),
                self.wf(),
                forall|j: int| 0 <= j < i ==> self.names()[j] != key@,
            decreases n - i,
        {
            if self.names[i] == *key {
                proof {
                    self.lemma_position(i as int);
                }
                return Some(i);
            }
            i = i + 1;
        }
        proof {
            if self.names().contains(key@) {
                let j = choose|j: int| 0 <= j < self.names().len() && self.names()[j] == key@;
                assert(self.names()[j] != key@);
            }
        }
        None
    }

    /// The place of the column called `key`, which is added as `empty`
    /// where the store has none of that name.
    fn slot(&mut self, key: String, empty: ValVec) -> (i: usize)
        requires
            old(self).wf(),
            empty.wf(),
        ensures
            final(self).wf(),
            i < final(self).columns().len(),
            final(self).names()[i as int] == key@,
            match old(self).position(key@) {
                Some(p) => i == p && final(self).names() == old(self).names() && final(self).columns() == old(self).columns(),
                None => i == old(self).names().len() && final(self).names() == old(self).names().push(key@) && final(self).columns() == old(self).columns().push(empty),
            },
    {
        match self.find(&key) {
            Some(i) => i,
            None => {
                let ghost name = key@;
                self.names.push(key);
                self.columns.push(empty);
                proof {
                    assert(self.names() =~= old(self).names().push(name));
                    assert forall|a: int, b: int|
                        0 <= a < self.names().len() && 0 <= b < self.names().len() && a
                            != b implies self.names()[a] != self.names()[b] by {
                        if a < old(self).names().len() {
                            assert(old(self).names().contains(old(self).names()[a]));
                        }
                        if b < old(self).names().len() {
                            assert(old(self).names().contains(old(self).names()[b]));
                        }
                    }
                }
                self.names.len() - 1
            },
        }
    }

    /// What the columns hold after `value` has arrived under `name`: a new
    /// column where the name is new, one more row where the column is of
    /// the kind of the value, and no change where it is of another kind.
    pub open spec fn with_value(&self, name: Seq<char>, value: ColumnData) -> Seq<ColumnData> {
        match self.position(name) {
            Some(p) => self.datas().update(p, pushed(self.datas()[p], value)),
            None => self.datas().push(value),
        }
    }

    /// Whether `after` still has every column that a value for `name` does
    /// not change, exactly as it is here: the columns of other names, and
    /// a column called `name` that is of another kind than the value.
    pub open spec fn kept(&self, after: Data, name: Seq<char>, value: ColumnData) -> bool {
        forall|j: int|
            0 <= j < self.columns().len() && (self.names()[j] != name || !self.datas()[j].same_kind(
                value,
            )) ==> j < after.columns().len() && #[trigger] after.columns()[j] == self.columns()[j]
    }

    /// The names after a value has arrived under `name`.
    pub open spec fn with_name(&self, name: Seq<char>) -> Seq<Seq<char>> {
        if self.names().contains(name) {
            self.names()
        } else {
            self.names().push(name)
        }
    }

    /// Adds a string to the column `key`, which is created if the store
    /// lacks it. The first kind of value that a column receives decides
    /// its kind; a string for a column of another kind is dropped.
    pub fn add_s(&mut self, key: String, value: String)
        requires
            old(self).wf(),
        ensures
            final(self).wf(),
            final(self).names() == old(self).with_name(key@),
            final(self).datas() == old(self).with_value(key@, ColumnData::Text(seq![value@])),
            old(self).kept(*final(self), key@, ColumnData::Text(seq![value@])),
    {
        let ghost text = value@;
        let i = self.slot(key, ValVec::IndexedString(IS::new()));
        let ghost mid = self.datas();
        self.columns[i].push_s(value);
        proof {
            match mid[i as int] {
                ColumnData::Text(v) => {
                    assert(v.push(text) =~= v + seq![text]);
                },
                _ => {},
            }
            assert(self.datas() =~= old(self).with_value(key@, ColumnData::Text(seq![text])));
        }
    }

    /// Adds an integer to the column `key`, which is created if the store
    /// lacks it. An integer for a column of another kind is dropped.
    pub fn add_i(&mut self, key: String, value: i64)
        requires
            old(self).wf(),
        ensures
            final(self).wf(),
            final(self).names() == old(self).with_name(key@),
            final(self).datas() == old(self).with_value(key@, ColumnData::Integer(seq![value])),
            old(self).kept(*final(self), key@, ColumnData::Integer(seq![value])),
    {
        let i = self.slot(key, ValVec::Integer(Vec::new()));
        let ghost mid = self.datas();
        self.columns[i].push_i(value);
        proof {
            match mid[i as int] {
                ColumnData::Integer(v) => {
                    assert(v.push(value) =~= v + seq![value]);
                },
                _ => {},
            }
            assert(self.datas() =~= old(self).with_value(key@, ColumnData::Integer(seq![value])));
        }
    }

    /// Adds a float, given by its bits, to the column `key`, which is
    /// created if the store lacks it. A float for a column of another
    /// kind is dropped.
    pub fn add_f(&mut self, key: String, value: u64)
        requires
            old(self).wf(),
        ensures
            final(self).wf(),
            final(self).names() == old(self).with_name(key@),
            final(self).datas() == old(self).with_value(key@, ColumnData::Float(seq![value])),
            old(self).kept(*final(self), key@, ColumnData::Float(seq![value])),
    {
        let i = self.slot(key, ValVec::Float(Vec::new()));
        let ghost mid = self.datas();
        self.columns[i].push_f(value);
        proof {
            match mid[i as int] {
                ColumnData::Float(v) => {
                    assert(v.push(value) =~= v + seq![value]);
                },
                _ => {},
            }
            assert(self.datas() =~= old(self).with_value(key@, ColumnData::Float(seq![value])));
        }
    }

    /// The number of rows.
    pub fn rows(&self) -> (n: usize)
        requires
            self.wf(),
        ensures
            n == self.spec_rows(),
    {
        if self.columns.len() == 0 {
            0
        } else {
            self.columns[0].len()
        }
    }

    /// Whether every column is ready to be written.
    pub open spec fn settled(&self) -> bool {
        forall|i: int| 0 <= i < self.columns().len() ==> (#[trigger] self.columns()[i]).settled()
    }

    /// The timestamps, where the store has an integer column of that name.
    pub open spec fn timestamps(&self) -> Option<Seq<i64>> {
        match self.get(TIMESTAMP@) {
            Some(ColumnData::Integer(v)) => Some(v),
            _ => None,
        }
    }

    /// Whether the store has an integer column of timestamps.
    pub fn has_timestamps(&self) -> (b: bool)
        requires
            self.wf(),
        ensures
            b == self.timestamps().is_some(),
    {
        let key = TIMESTAMP.to_owned();
        match self.find(&key) {
            Some(i) => match &self.columns[i] {
                ValVec::Integer(_) => true,
                _ => false,
            },
            None => false,
        }
    }

    /// Whether all columns have the same number of rows.
    pub fn is_rectangular(&self) -> (b: bool)
        requires
            self.wf(),
        ensures
            b == self.rectangular(),
    {
        let n: usize = self.columns.len();
        if n == 0 {
            return true;
        }
        let rows: usize = self.columns[0].len();
        let mut i: usize = 1;
        while i < n
            invariant
                1 <= i <= n,
                n == self.columns().len(),
                rows == self.datas()[0].len(),
                forall|j: int| 0 <= j < i ==> (#[trigger] self.datas()[j]).len() == rows,
            decreases n - i,
        {
            if self.columns[i].len() != rows {
                assert(self.datas()[i as int].len() != self.datas()[0].len());
                return false;
            }
            i = i + 1;
        }
        true
    }

    /// Adds the column that counts the records behind each row: a one for
    /// every row. A column of that name that the store already has is
    /// replaced.
    pub fn preaggregate(&mut self)
        requires
            old(self).wf(),
        ensures
            final(self).wf(),
            final(self).names() == old(self).with_name(COUNT@),
            final(self).datas() == match old(self).position(COUNT@) {
                Some(p) => old(self).datas().update(
                    p,
                    ColumnData::Integer(ones(old(self).spec_rows())),
                ),
                None => old(self).datas().push(ColumnData::Integer(ones(old(self).spec_rows()))),
            },
            old(self).rectangular() ==> final(self).rectangular(),
            old(self).settled() ==> final(self).settled(),
    {
        let rows: usize = self.rows();
        let mut column: Vec<i64> = Vec::new();
        let mut r: usize = 0;
        while r < rows
            invariant
                r <= rows,
                column@ == ones(r as nat),
            decreases rows - r,
        {
            column.push(1);
            r = r + 1;
            assert(column@ =~= ones(r as nat));
        }
        let i = self.slot(COUNT.to_owned(), ValVec::Integer(Vec::new()));
        self.columns.set(i, ValVec::Integer(column));
        proof {
            let value = ColumnData::Integer(ones(old(self).spec_rows()));
            match old(self).position(COUNT@) {
                Some(p) => {
                    assert(self.datas() =~= old(self).datas().update(p, value));
                },
                None => {
                    assert(self.datas() =~= old(self).datas().push(value));
                },
            }
            if old(self).rectangular() {
                assert forall|a: int, b: int|
                    0 <= a < self.datas().len() && 0 <= b < self.datas().len() implies (
                #[trigger] self.datas()[a]).len() == (#[trigger] self.datas()[b]).len() by {
                    if old(self).datas().len() > 0 {
                        if a != i && a < old(self).datas().len() {
                            assert(old(self).datas()[a].len() == old(self).datas()[0].len());
                        }
                        if b != i && b < old(self).datas().len() {
                            assert(old(self).datas()[b].len() == old(self).datas()[0].len());
                        }
                    }
                }
            }
            if old(self).settled() {
                assert forall|a: int| 0 <= a < self.columns().len() implies (
                #[trigger] self.columns()[a]).settled() by {
                    if a != i {
                        assert(old(self).columns()[a].settled());
                    }
                }
            }
        }
    }

    /// Sorts the rows by their timestamps: every column has its rows moved
    /// by one and the same permutation, under which the timestamps are in
    /// order; rows with equal timestamps come in no particular order.
    /// String columns get their dictionaries in order on the way.
    pub fn sort(&mut self)
        requires
            old(self).wf(),
            old(self).timestamps().is_some(),
            old(self).rectangular(),
        ensures
            final(self).wf(),
            final(self).settled(),
            final(self).rectangular(),
            final(self).names() == old(self).names(),
            final(self).spec_rows() == old(self).spec_rows(),
            exists|p: Seq<usize>|
                {
                    &&& is_permutation(p)
                    &&& p.len() == old(self).spec_rows()
                    &&& sorted_by_key(p, old(self).timestamps().unwrap())
                    &&& #[trigger] arranged(old(self).datas(), final(self).datas(), p)
                },
            final(self).timestamps() matches Some(t) && non_decreasing(t),
    {
        let key = TIMESTAMP.to_owned();
        let t: usize = self.find(&key).unwrap();
        let perm: Vec<usize> = match &self.columns[t] {
            ValVec::Integer(ts) => compute(ts),
            // not reached: the timestamps are integers
            _ => Vec::new(),
        };
        let ghost before = old(self).datas();
        let ghost stamps = old(self).timestamps().unwrap();
        let ghost p = perm@;
        proof {
            assert(before[t as int] == ColumnData::Integer(stamps));
            assert(before[0].len() == before[t as int].len());
        }
        let n: usize = self.columns.len();
        let mut i: usize = 0;
        while i < n
            invariant
                i <= n,
                n == self.columns().len(),
                n == before.len(),
                self.names() == old(self).names(),
                self.names().len() == n,
                self.names().no_duplicates(),
                p == perm@,
                is_permutation(p),
                forall|j: int| 0 <= j < n ==> (#[trigger] before[j]).len() == p.len(),
                forall|j: int| 0 <= j < n ==> (#[trigger] self.columns()[j]).wf(),
                forall|j: int| 0 <= j < i ==> (#[trigger] self.columns()[j]).settled(),
                forall|j: int| 0 <= j < i ==> (#[trigger] self.datas()[j]) == before[j].permuted(p),
                forall|j: int| i <= j < n ==> (#[trigger] self.datas()[j]) == before[j],
            decreases n - i,
        {
            let ghost cols = self.columns();
            let ghost ds = self.datas();
            assert(before[i as int].len() == p.len());
            assert(self.datas()[i as int] == before[i as int]);
            match &mut self.columns[i] {
                ValVec::IndexedString(is) => {
                    is.sort_and_permute(perm.as_slice());
                },
                ValVec::Integer(v) => {
                    apply(perm.as_slice(), v);
                },
                ValVec::Float(v) => {
                    apply(perm.as_slice(), v);
                },
            }
            proof {
                assert(self.columns().len() == n);
                assert(self.columns()[i as int].data() == cols[i as int].data().permuted(p));
                assert forall|j: int| 0 <= j < i + 1 implies (#[trigger] self.datas()[j])
                    == before[j].permuted(p) by {
                    if j != i {
                        assert(self.columns()[j] == cols[j]);
                        assert(ds[j] == before[j].permuted(p));
                    } else {
                        assert(ds[j] == before[j]);
                    }
                }
                assert forall|j: int| i + 1 <= j < n implies (#[trigger] self.datas()[j])
                    == before[j] by {
                    assert(self.columns()[j] == cols[j]);
                    assert(ds[j] == before[j]);
                }
                assert forall|j: int| 0 <= j < n implies (#[trigger] self.columns()[j]).wf() by {
                    if j != i {
                        assert(self.columns()[j] == cols[j]);
                    }
                }
                assert forall|j: int| 0 <= j < i + 1 implies (
                #[trigger] self.columns()[j]).settled() by {
                    if j != i {
                        assert(self.columns()[j] == cols[j]);
                    }
                }
            }
            i = i + 1;
        }
        proof {
            assert(arranged(before, self.datas(), p));
            lemma_permuted_sorted(stamps, p);
            self.lemma_position(t as int);
            assert(self.datas()[t as int] == before[t as int].permuted(p));
            assert forall|a: int, b: int|
                0 <= a < self.datas().len() && 0 <= b < self.datas().len() implies (
            #[trigger] self.datas()[a]).len() == (#[trigger] self.datas()[b]).len() by {
                assert(before[a].len() == p.len());
                assert(before[b].len() == p.len());
            }
        }
    }

    /// Whether no column of `other` meets a column of another kind under
    /// its name in this store.
    fn accepts(&self, other: &Data) -> (b: bool)
        requires
            self.wf(),
            other.wf(),
        ensures
            b == !conflicting(self.names(), self.datas(), other.names(), other.datas()),
    {
        let m: usize = other.names.len();
        let mut j: usize = 0;
        while j < m
            invariant
                j <= m,
                m == other.names().len(),
                self.wf(),
                other.wf(),
                forall|a: int|
                    0 <= a < j ==> #[trigger] agrees(
                        self.names(),
                        self.datas(),
                        other.names()[a],
                        other.datas()[a],
                    ),
            decreases m - j,
        {
            match self.find(&other.names[j]) {
                Some(i) => {
                    if !self.columns[i].same_kind(&other.columns[j]) {
                        assert(!agrees(
                            self.names(),
                            self.datas(),
                            other.names()[j as int],
                            other.datas()[j as int],
                        ));
                        return false;
                    }
                    assert forall|x: int|
                        0 <= x < self.names().len() && #[trigger] self.names()[x]
                            == other.names()[j as int] implies self.datas()[x].same_kind(
                        other.datas()[j as int],
                    ) by {
                        assert(x == i);
                    }
                },
                None => {
                    assert forall|x: int|
                        0 <= x < self.names().len() && #[trigger] self.names()[x]
                            == other.names()[j as int] implies self.datas()[x].same_kind(
                        other.datas()[j as int],
                    ) by {
                        assert(self.names().contains(other.names()[j as int]));
                    }
                },
            }
            j = j + 1;
        }
        true
    }

    /// Takes over the columns of `other`. A column whose name is new
    /// arrives as it is; the rows of any other go behind the rows that the
    /// column of that name already has. Where a name stands for columns of
    /// different kinds in the two stores, nothing is taken over.
    pub fn append(&mut self, other: Data) -> (r: Result<(), Error>)
        requires
            old(self).wf(),
            other.wf(),
        ensures
            final(self).wf(),
            r is Err <==> conflicting(
                old(self).names(),
                old(self).datas(),
                other.names(),
                other.datas(),
            ),
            match r {
                Ok(()) => final(self).names() == with_texts(old(self).names(), other.names())
                    && final(self).datas() == merged_datas(
                    old(self).names(),
                    old(self).datas(),
                    other.names(),
                    other.datas(),
                ),
                Err(e) => e == Error::TypeMismatch && final(self).names() == old(self).names()
                    && final(self).datas() == old(self).datas(),
            },
    {
        if !self.accepts(&other) {
            return Err(Error::TypeMismatch);
        }
        let ghost names0 = self.names();
        let ghost datas0 = self.datas();
        let ghost others = other.names();
        let ghost other_datas = other.datas();
        let ghost other_columns = other.columns();
        let mut other = other;
        let m: usize = other.names.len();
        let mut j: usize = 0;
        while j < m
            invariant
                j <= m,
                m == others.len(),
                m == other_datas.len(),
                self.wf(),
                other.names() == others,
                other.columns().len() == m,
                others.no_duplicates(),
                forall|a: int| j <= a < m ==> #[trigger] other.columns()[a] == other_columns[a],
                forall|a: int| 0 <= a < m ==> (#[trigger] other_columns[a]).wf(),
                forall|a: int| 0 <= a < m ==> (#[trigger] other_columns[a]).data() == other_datas[a],
                forall|a: int|
                    j <= a < m ==> #[trigger] agrees(
                        self.names(),
                        self.datas(),
                        others[a],
                        other_datas[a],
                    ),
                forall|a: int|
                    j <= a < m && self.names().contains(#[trigger] others[a]) ==> names0.contains(
                        others[a],
                    ),
                self.names() == with_texts(names0, others.take(j as int)),
                self.datas() == merged_datas(
                    names0,
                    datas0,
                    others.take(j as int),
                    other_datas.take(j as int),
                ),
            decreases m - j,
        {
            let ghost names1 = self.names();
            let ghost datas1 = self.datas();
            let ghost value = other_datas[j as int];
            let ghost name = others[j as int];
            let mut column = ValVec::Integer(Vec::new());
            std::mem::swap(&mut column, &mut other.columns[j]);
            assert(column == other_columns[j as int]);
            let key = other.names[j].clone();
            assert(key@ == name);
            let i = self.slot(key, column.fresh());
            let ghost datas2 = self.datas();
            proof {
                assert(agrees(names1, datas1, name, value));
                if names1.contains(name) {
                    assert(names1[i as int] == name);
                    assert(datas1[i as int].same_kind(value));
                    assert(datas2 =~= datas1);
                } else {
                    assert(datas2 =~= datas1.push(value.emptied()));
                }
                assert(datas2[i as int].same_kind(value));
            }
            let moved = self.columns[i].append(&mut column);
            proof {
                assert(moved is Ok);
                let datas3 = self.datas();
                let joined = datas2[i as int].concat(value);
                assert(datas3 =~= datas2.update(i as int, joined));
                if names1.contains(name) {
                    assert(pushed(datas1[i as int], value) == joined);
                } else {
                    match value {
                        ColumnData::Text(v) => {
                            assert(Seq::<Seq<char>>::empty() + v =~= v);
                        },
                        ColumnData::Integer(v) => {
                            assert(Seq::<i64>::empty() + v =~= v);
                        },
                        ColumnData::Float(v) => {
                            assert(Seq::<u64>::empty() + v =~= v);
                        },
                    }
                    assert(joined == value);
                    assert(datas3 =~= datas1.push(value));
                }
                assert(datas3 == datas_with(names1, datas1, name, value));
                assert(self.names() == with_text(names1, name));
                assert(others.take(j + 1).drop_last() =~= others.take(j as int));
                assert(other_datas.take(j + 1).drop_last() =~= other_datas.take(j as int));
                assert forall|a: int| j + 1 <= a < m implies #[trigger] agrees(
                    self.names(),
                    self.datas(),
                    others[a],
                    other_datas[a],
                ) by {
                    assert(agrees(names1, datas1, others[a], other_datas[a]));
                    assert forall|x: int|
                        0 <= x < self.names().len() && #[trigger] self.names()[x]
                            == others[a] implies self.datas()[x].same_kind(other_datas[a]) by {
                        if x < names1.len() {
                            assert(names1[x] == others[a]);
                            assert(datas1[x].same_kind(other_datas[a]));
                        } else {
                            assert(others[j as int] != others[a]);
                        }
                    }
                }
                assert forall|a: int|
                    j + 1 <= a < m && self.names().contains(
                        #[trigger] others[a],
                    ) implies names0.contains(others[a]) by {
                    let x = choose|x: int|
                        0 <= x < self.names().len() && self.names()[x] == others[a];
                    if x < names1.len() {
                        assert(names1.contains(others[a]));
                    } else {
                        assert(others[j as int] != others[a]);
                    }
                }
                assert forall|a: int| j + 1 <= a < m implies #[trigger] other.columns()[a]
                    == other_columns[a] by {
                }
            }
            j = j + 1;
        }
        proof {
            assert(others.take(m as int) =~= others);
            assert(other_datas.take(m as int) =~= other_datas);
        }
        Ok(())
    }

    /// The number of columns.
    pub fn width(&self) -> (n: usize)
        requires
            self.wf(),
        ensures
            n == self.names().len(),
            n == self.columns().len(),
    {
        self.names.len()
    }

    /// The name of the column at `i`.
    pub fn name(&self, i: usize) -> (r: &String)
        requires
            self.wf(),
            i < self.names().len(),
        ensures
            r@ == self.names()[i as int],
    {
        &self.names[i]
    }

    /// The column at `i`.
    pub fn column(&self, i: usize) -> (r: &ValVec)
        requires
            self.wf(),
            i < self.columns().len(),
        ensures
            *r == self.columns()[i as int],
            r.wf(),
    {
        &self.columns[i]
    }

    /// In a store whose columns agree, every column has as many rows as
    /// the store.
    pub proof fn lemma_rows_agree(&self, i: int)
        requires
            self.rectangular(),
            0 <= i < self.datas().len(),
        ensures
            self.datas()[i].len() == self.spec_rows(),
    {
        assert(self.datas()[i].len() == self.datas()[0].len());
    }

    /// Merging a store with one that shares no name with it gives all
    /// columns of both, each with its rows as they were.
    pub proof fn lemma_merge_of_disjoint(&self, other: &Data)
        requires
            self.wf(),
            other.wf(),
            forall|i: int, j: int|
                0 <= i < self.names().len() && 0 <= j < other.names().len() ==> self.names()[i]
                    != other.names()[j],
        ensures
            with_texts(self.names(), other.names()) == self.names() + other.names(),
            merged_datas(self.names(), self.datas(), other.names(), other.datas()) == self.datas()
                + other.datas(),
    {
        lemma_merge_disjoint(self.names(), self.datas(), other.names(), other.datas());
    }

    /// Merging a store with one that has a column of the same name and
    /// kind puts the rows of the second behind the rows of the first: the
    /// column is as long as both together.
    pub proof fn lemma_merge_of_shared(&self, other: &Data, i: int, j: int)
        requires
            self.wf(),
            other.wf(),
            0 <= i < self.names().len(),
            0 <= j < other.names().len(),
            self.names()[i] == other.names()[j],
            self.datas()[i].same_kind(other.datas()[j]),
        ensures
            with_texts(self.names(), other.names())[i] == self.names()[i],
            merged_datas(self.names(), self.datas(), other.names(), other.datas())[i]
                == self.datas()[i].concat(other.datas()[j]),
            merged_datas(self.names(), self.datas(), other.names(), other.datas())[i].len()
                == self.datas()[i].len() + other.datas()[j].len(),
    {
        lemma_merge_overlap(self.names(), self.datas(), other.names(), other.datas(), i);
        assert(other.names()[j] == self.names()[i]);
    }
}

} // verus!
