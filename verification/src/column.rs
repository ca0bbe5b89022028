//! One column of a store: strings behind a dictionary, integers, or floats
//! held by their bits. Numeric columns are written as blocks of 8192
//! values.

use vstd::prelude::*;
use vstd::string::StringSliceAdditionalSpecFns;
use crate::codec::packed;
use crate::conf::Compression;
use crate::error::Error;
use crate::indexed::{
    chunk, lemma_chunk_count, lemma_fits_prefix, packed_chunks, table, table_fits, Table,
};
use crate::interner::IS;
use crate::text::strictly_ascending;
use crate::wire::{
    be_bytes, bits64, byte_of, le_bytes, put_bytes, put_i64_le, put_u32_be, put_u64_le, put_u8,
};

verus! {

/// The number of values in one block of a numeric column.
pub const BLOCK_VALUES: usize = 8192;

/// The number of bytes that the values of one block take.
pub const BLOCK_BYTES: usize = 65536;

/// A value that is stored as eight bytes, least significant first.
pub trait VVWrite: Sized {
    /// The unsigned number that the eight bytes spell.
    spec fn word(&self) -> int;

    fn write(&self, writer: &mut Vec<u8>)
        ensures
            final(writer)@ == old(writer)@ + le_bytes(self.word(), 8),
    ;
}

impl VVWrite for i64 {
    open spec fn word(&self) -> int {
        bits64(*self)
    }

    fn write(&self, writer: &mut Vec<u8>) {
        put_i64_le(writer, *self);
    }
}

impl VVWrite for u64 {
    open spec fn word(&self) -> int {
        *self as int
    }

    fn write(&self, writer: &mut Vec<u8>) {
        put_u64_le(writer, *self);
    }
}

/// The numbers that the values of a column are stored as.
pub open spec fn words_of<T: VVWrite>(values: Seq<T>) -> Seq<int> {
    Seq::new(values.len(), |i: int| values[i].word())
}

/// The bytes of all words, eight for each, least significant first.
pub open spec fn words_le(words: Seq<int>) -> Seq<u8> {
    Seq::new(8 * words.len(), |i: int| byte_of(words[i / 8], i % 8))
}

/// A numeric column: the description of its type behind its length, the
/// layout version, the number of values, the number of values per block,
/// the compression, and the table of the packed blocks.
pub open spec fn numeric_section(meta: Seq<u8>, words: Seq<int>, compression: Compression) -> Seq<
    u8,
> {
    be_bytes(meta.len() as int, 4) + meta + seq![2u8] + be_bytes(words.len() as int, 4) + be_bytes(
        BLOCK_VALUES as int,
        4,
    ) + seq![compression.spec_id()] + table(
        0,
        packed_chunks(words_le(words), BLOCK_BYTES as int, compression),
    )
}

/// Whether every count and length of the column fits its 32-bit field.
pub open spec fn numeric_section_fits(meta: Seq<u8>, words: Seq<int>, compression: Compression) -> bool {
    &&& meta.len() <= u32::MAX
    &&& words.len() <= u32::MAX
    &&& table_fits(packed_chunks(words_le(words), BLOCK_BYTES as int, compression))
}

/// The bytes of the words of block `k` are piece `k` of the bytes of all
/// words.
pub proof fn lemma_block_is_chunk(words: Seq<int>, k: int)
    requires
        0 <= k,
        k * 8192 < words.len(),
    ensures
        chunk(words_le(words), 65536, k) == words_le(
            words.subrange(
                k * 8192,
                if k * 8192 + 8192 < words.len() {
                    k * 8192 + 8192
                } else {
                    words.len() as int
                },
            ),
        ),
{
    let end = if k * 8192 + 8192 < words.len() {
        k * 8192 + 8192
    } else {
        words.len() as int
    };
    let a = chunk(words_le(words), 65536, k);
    let b = words_le(words.subrange(k * 8192, end));
    assert(a.len() == b.len());
    assert forall|i: int| 0 <= i < a.len() implies a[i] == b[i] by {
        assert((k * 65536 + i) / 8 == k * 8192 + i / 8);
        assert((k * 65536 + i) % 8 == i % 8);
    }
    assert(a =~= b);
}

/// The table of the blocks of a numeric column.
pub fn numeric_blocks<T: VVWrite>(data: &Vec<T>, compression: Compression) -> (r: Result<
    Table,
    Error,
>)
    ensures
        match r {
            Ok(t) => t.wf() && t.entries() == packed_chunks(
                words_le(words_of(data@)),
                BLOCK_BYTES as int,
                compression,
            ),
            Err(e) => (e == Error::EncodingOverflow && !table_fits(
                packed_chunks(words_le(words_of(data@)), BLOCK_BYTES as int, compression),
            )) || (e == Error::Packaging && compression == Compression::LZ4),
        },
{
    let n: usize = data.len();
    let ghost words = words_of(data@);
    let ghost raw = words_le(words);
    let ghost all = packed_chunks(raw, 65536, compression);
    let mut t = Table::new();
    let mut batch: Vec<u8> = Vec::new();
    let mut start: usize = 0;
    proof {
        lemma_chunk_count(raw.len() as int, 65536, 0);
        assert(all.take(0) =~= t.entries());
    }
    while start < n
        invariant
            start <= n,
            n == data@.len(),
            words == words_of(data@),
            raw == words_le(words),
            all == packed_chunks(raw, 65536, compression),
            t.wf(),
            t.entries().len() <= all.len(),
            t.entries() == all.take(t.entries().len() as int),
            start < n ==> start == t.entries().len() * 8192,
            start == n ==> t.entries().len() == all.len(),
        decreases n - start,
    {
        let ghost k = t.entries().len() as int;
        let end: usize = if n - start > BLOCK_VALUES {
            start + BLOCK_VALUES
        } else {
            n
        };
        batch.clear();
        let mut j: usize = start;
        assert(batch@ =~= words_le(words.subrange(start as int, j as int)));
        while j < end
            invariant
                start <= j <= end,
                end <= n,
                n == data@.len(),
                words == words_of(data@),
                batch@ == words_le(words.subrange(start as int, j as int)),
            decreases end - j,
        {
            data[j].write(&mut batch);
            proof {
                let now = words_le(words.subrange(start as int, j + 1));
                let was = words_le(words.subrange(start as int, j as int));
                let added = le_bytes(data@[j as int].word(), 8);
                assert((was + added).len() == now.len());
                assert forall|i: int| 0 <= i < now.len() implies (was + added)[i] == now[i] by {
                    if i >= was.len() {
                        assert(i / 8 == j - start);
                        assert(i % 8 == i - was.len());
                    }
                }
                assert(batch@ =~= now);
            }
            j = j + 1;
        }
        proof {
            lemma_chunk_count(raw.len() as int, 65536, k);
            lemma_chunk_count(raw.len() as int, 65536, k + 1);
            lemma_block_is_chunk(words, k);
            assert(all.take(k).push(all[k]) =~= all.take(k + 1));
        }
        match t.push_packed(batch.as_slice(), compression) {
            Ok(()) => {},
            Err(e) => {
                proof {
                    if e == Error::EncodingOverflow && table_fits(all) {
                        lemma_fits_prefix(all, k + 1);
                    }
                }
                return Err(e);
            },
        }
        start = end;
    }
    proof {
        if n == 0 {
            lemma_chunk_count(0, 65536, 0);
        }
        assert(all.take(all.len() as int) =~= all);
    }
    Ok(t)
}

/// Appends a numeric column, or nothing when one of its numbers does not
/// fit or the compressor fails.
pub fn write_numeric<T: VVWrite>(
    writer: &mut Vec<u8>,
    meta: &str,
    data: &Vec<T>,
    compression: Compression,
) -> (r: Result<(), Error>)
    ensures
        match r {
            Ok(()) => numeric_section_fits(meta.spec_bytes(), words_of(data@), compression)
                && final(writer)@ == old(writer)@ + numeric_section(
                meta.spec_bytes(),
                words_of(data@),
                compression,
            ),
            Err(e) => final(writer)@ == old(writer)@ && ((e == Error::EncodingOverflow
                && !numeric_section_fits(meta.spec_bytes(), words_of(data@), compression)) || (e
                == Error::Packaging && compression == Compression::LZ4)),
        },
{
    let text = meta.as_bytes();
    if text.len() > 0xFFFF_FFFF || data.len() > 0xFFFF_FFFF {
        return Err(Error::EncodingOverflow);
    }
    let blocks = match numeric_blocks(data, compression) {
        Ok(t) => t,
        Err(e) => {
            return Err(e);
        },
    };
    proof {
        blocks.lemma_fits();
    }
    put_u32_be(writer, text.len() as u32);
    put_bytes(writer, text);
    put_u8(writer, 2);
    put_u32_be(writer, data.len() as u32);
    put_u32_be(writer, BLOCK_VALUES as u32);
    put_u8(writer, compression.id());
    blocks.write(writer, 0);
    assert(writer@ =~= old(writer)@ + numeric_section(
        meta.spec_bytes(),
        words_of(data@),
        compression,
    ));
    Ok(())
}

/// What a column holds, row by row.
pub enum ColumnData {
    Text(Seq<Seq<char>>),
    Integer(Seq<i64>),
    Float(Seq<u64>),
}

impl ColumnData {
    /// The number of rows.
    pub open spec fn len(self) -> nat {
        match self {
            ColumnData::Text(v) => v.len(),
            ColumnData::Integer(v) => v.len(),
            ColumnData::Float(v) => v.len(),
        }
    }

    /// Whether two columns hold values of the same kind.
    pub open spec fn same_kind(self, other: ColumnData) -> bool {
        match (self, other) {
            (ColumnData::Text(_), ColumnData::Text(_)) => true,
            (ColumnData::Integer(_), ColumnData::Integer(_)) => true,
            (ColumnData::Float(_), ColumnData::Float(_)) => true,
            _ => false,
        }
    }

    /// The rows of `self` followed by those of `other`, for two columns of
    /// the same kind.
    pub open spec fn concat(self, other: ColumnData) -> ColumnData {
        match (self, other) {
            (ColumnData::Text(a), ColumnData::Text(b)) => ColumnData::Text(a + b),
            (ColumnData::Integer(a), ColumnData::Integer(b)) => ColumnData::Integer(a + b),
            (ColumnData::Float(a), ColumnData::Float(b)) => ColumnData::Float(a + b),
            _ => self,
        }
    }

    /// The column without its rows.
    pub open spec fn emptied(self) -> ColumnData {
        match self {
            ColumnData::Text(_) => ColumnData::Text(Seq::empty()),
            ColumnData::Integer(_) => ColumnData::Integer(Seq::empty()),
            ColumnData::Float(_) => ColumnData::Float(Seq::empty()),
        }
    }

    /// The column in which row `i` holds what row `p[i]` held.
    pub open spec fn permuted(self, p: Seq<usize>) -> ColumnData {
        match self {
            ColumnData::Text(v) => ColumnData::Text(crate::permutation::permuted(v, p)),
            ColumnData::Integer(v) => ColumnData::Integer(crate::permutation::permuted(v, p)),
            ColumnData::Float(v) => ColumnData::Float(crate::permutation::permuted(v, p)),
        }
    }
}

/// A column of one of the three kinds. A float is held by its bits.
#[derive(Debug)]
pub enum ValVec {
    IndexedString(IS),
    Integer(Vec<i64>),
    Float(Vec<u64>),
}

impl ValVec {
    /// A string column is well formed; a numeric column always is.
    pub open spec fn wf(&self) -> bool {
        match self {
            ValVec::IndexedString(is) => is.wf(),
            _ => true,
        }
    }

    /// The rows of the column.
    pub open spec fn data(&self) -> ColumnData {
        match self {
            ValVec::IndexedString(is) => ColumnData::Text(is.values()),
            ValVec::Integer(v) => ColumnData::Integer(v@),
            ValVec::Float(v) => ColumnData::Float(v@),
        }
    }

    /// Whether the column is ready to be written: a string column must
    /// have its dictionary in order.
    pub open spec fn settled(&self) -> bool {
        match self {
            ValVec::IndexedString(is) => strictly_ascending(is.dictionary()),
            _ => true,
        }
    }

    /// Adds a row to a string column; any other column stays as it is.
    pub fn push_s(&mut self, value: String)
        requires
            old(self).wf(),
        ensures
            final(self).wf(),
            final(self).data() == match old(self).data() {
                ColumnData::Text(v) => ColumnData::Text(v.push(value@)),
                other => other,
            },
            !(old(self).data() is Text) ==> *final(self) == *old(self),
    {
        match self {
            ValVec::IndexedString(is) => is.add_s(value),
            _ => {},
        }
    }

    /// Adds a row to an integer column; any other column stays as it is.
    pub fn push_i(&mut self, value: i64)
        requires
            old(self).wf(),
        ensures
            final(self).wf(),
            final(self).data() == match old(self).data() {
                ColumnData::Integer(v) => ColumnData::Integer(v.push(value)),
                other => other,
            },
            !(old(self).data() is Integer) ==> *final(self) == *old(self),
    {
        match self {
            ValVec::Integer(v) => v.push(value),
            _ => {},
        }
    }

    /// Adds a row to a float column; any other column stays as it is.
    pub fn push_f(&mut self, value: u64)
        requires
            old(self).wf(),
        ensures
            final(self).wf(),
            final(self).data() == match old(self).data() {
                ColumnData::Float(v) => ColumnData::Float(v.push(value)),
                other => other,
            },
            !(old(self).data() is Float) ==> *final(self) == *old(self),
    {
        match self {
            ValVec::Float(v) => v.push(value),
            _ => {},
        }
    }

    /// Moves the rows of `other` behind the rows of this column. Two
    /// columns of different kinds are refused and stay as they are.
    pub fn append(&mut self, other: &mut ValVec) -> (r: Result<(), Error>)
        requires
            old(self).wf(),
            old(other).wf(),
        ensures
            final(self).wf(),
            final(other).wf(),
            r is Ok <==> old(self).data().same_kind(old(other).data()),
            match r {
                Ok(()) => final(self).data() == old(self).data().concat(old(other).data())
                    && final(other).data() == old(other).data().emptied(),
                Err(e) => e == Error::TypeMismatch && *final(self) == *old(self) && *final(other)
                    == *old(other),
            },
    {
        match (self, other) {
            (ValVec::IndexedString(a), ValVec::IndexedString(b)) => {
                a.append(b);
                Ok(())
            },
            (ValVec::Integer(a), ValVec::Integer(b)) => {
                a.append(b);
                Ok(())
            },
            (ValVec::Float(a), ValVec::Float(b)) => {
                a.append(b);
                Ok(())
            },
            _ => Err(Error::TypeMismatch),
        }
    }

    /// Whether both columns hold values of the same kind.
    pub fn same_kind(&self, other: &ValVec) -> (b: bool)
        ensures
            b == self.data().same_kind(other.data()),
    {
        match (self, other) {
            (ValVec::IndexedString(_), ValVec::IndexedString(_)) => true,
            (ValVec::Integer(_), ValVec::Integer(_)) => true,
            (ValVec::Float(_), ValVec::Float(_)) => true,
            _ => false,
        }
    }

    /// A column of the same kind without rows.
    pub fn fresh(&self) -> (v: ValVec)
        ensures
            v.wf(),
            v.data() == self.data().emptied(),
    {
        match self {
            ValVec::IndexedString(_) => ValVec::IndexedString(IS::new()),
            ValVec::Integer(_) => ValVec::Integer(Vec::new()),
            ValVec::Float(_) => ValVec::Float(Vec::new()),
        }
    }

    /// The number of rows.
    pub fn len(&self) -> (n: usize)
        ensures
            n == self.data().len(),
    {
        match self {
            ValVec::IndexedString(is) => is.len(),
            ValVec::Integer(v) => v.len(),
            ValVec::Float(v) => v.len(),
        }
    }
}

} // verus!
