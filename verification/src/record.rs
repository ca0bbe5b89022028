//! Records as they arrive: flat lists of named values, each of which goes
//! to the column of its name.

use vstd::prelude::*;
use crate::column::ColumnData;
use crate::store::{datas_with, Data};
use crate::text::with_text;

verus! {

/// One value of a record. A float is held by its bits; a value that is
/// neither a number nor a string is `Other`.
#[derive(Debug)]
pub enum Field {
    Integer(i64),
    Float(u64),
    Text(String),
    Other,
}

impl Field {
    /// The single row that the value adds to a column, if it adds one.
    pub open spec fn row(&self) -> Option<ColumnData> {
        match self {
            Field::Integer(v) => Some(ColumnData::Integer(seq![*v])),
            Field::Float(v) => Some(ColumnData::Float(seq![*v])),
            Field::Text(v) => Some(ColumnData::Text(seq![v@])),
            Field::Other => None,
        }
    }
}

/// The names of a store after the fields of a record have arrived.
pub open spec fn names_after(names: Seq<Seq<char>>, record: Seq<(String, Field)>) -> Seq<Seq<char>>
    decreases record.len(),
{
    if record.len() == 0 {
        names
    } else {
        let before = names_after(names, record.drop_last());
        match record.last().1.row() {
            Some(_) => with_text(before, record.last().0@),
            None => before,
        }
    }
}

/// The columns of a store after the fields of a record have arrived.
pub open spec fn datas_after(
    names: Seq<Seq<char>>,
    datas: Seq<ColumnData>,
    record: Seq<(String, Field)>,
) -> Seq<ColumnData>
    decreases record.len(),
{
    if record.len() == 0 {
        datas
    } else {
        let before = datas_after(names, datas, record.drop_last());
        match record.last().1.row() {
            Some(row) => datas_with(
                names_after(names, record.drop_last()),
                before,
                record.last().0@,
                row,
            ),
            None => before,
        }
    }
}

impl Data {
    /// Adds one value to the column `key`: an integer, a float or a string
    /// goes to the column of its kind, which is created if the store has
    /// no column of that name; any other value is skipped, and so is a
    /// value for a column of another kind.
    pub fn add_field(&mut self, key: String, value: Field)
        requires
            old(self).wf(),
        ensures
            final(self).wf(),
            match value.row() {
                Some(row) => final(self).names() == old(self).with_name(key@) && final(self).datas() == old(self).with_value(key@, row),
                None => final(self).names() == old(self).names() && final(self).datas() == old(self).datas(),
            },
    {
        match value {
            Field::Integer(v) => self.add_i(key, v),
            Field::Float(v) => self.add_f(key, v),
            Field::Text(v) => self.add_s(key, v),
            Field::Other => {},
        }
    }

    /// Adds the values of one record, in their order.
    pub fn add_record(&mut self, record: Vec<(String, Field)>)
        requires
            old(self).wf(),
        ensures
            final(self).wf(),
            final(self).names() == names_after(old(self).names(), record@),
            final(self).datas() == datas_after(old(self).names(), old(self).datas(), record@),
    {
        let ghost fields = record@;
        let ghost names0 = self.names();
        let ghost datas0 = self.datas();
        let ghost mut k: int = 0;
        assert(fields.take(0) =~= Seq::<(String, Field)>::empty());
        for pair in it: record
            invariant
                it.seq() == fields,
                k == it.index(),
                self.wf(),
                self.names() == names_after(names0, fields.take(k)),
                self.datas() == datas_after(names0, datas0, fields.take(k)),
        {
            proof {
                assert(fields.take(k + 1).drop_last() =~= fields.take(k));
                assert(fields.take(k + 1).last() == pair);
                k = k + 1;
            }
            let (key, value) = pair;
            self.add_field(key, value);
        }
        assert(fields.take(fields.len() as int) =~= fields);
    }
}

} // verus!
