//! The length-prefixed table that the format uses wherever it stores a
//! list of byte strings: dictionaries, bitmaps, column names and the blocks
//! of a column. Each entry follows a four-byte zero marker, and a parallel
//! array gives the offset at which each entry ends.

use vstd::prelude::*;
use crate::codec::{compress, framed, packed};
use crate::conf::Compression;
use crate::error::Error;
use crate::wire::{be_bytes, put_bytes, put_u32_be, put_u8};

verus! {

/// The entries one after another, each behind its marker.
pub open spec fn items(entries: Seq<Seq<u8>>) -> Seq<u8>
    decreases entries.len(),
{
    if entries.len() == 0 {
        Seq::<u8>::empty()
    } else {
        items(entries.drop_last()) + framed(entries.last())
    }
}

/// For each entry, the length of the items up to its end, as four bytes.
pub open spec fn offsets(entries: Seq<Seq<u8>>) -> Seq<u8>
    decreases entries.len(),
{
    if entries.len() == 0 {
        Seq::<u8>::empty()
    } else {
        offsets(entries.drop_last()) + be_bytes(items(entries).len() as int, 4)
    }
}

/// The number that a table states as its length: offsets, items and the
/// four bytes of the entry count.
pub open spec fn stated_len(entries: Seq<Seq<u8>>) -> int {
    (4 * entries.len() + items(entries).len() + 4) as int
}

/// Whether every number of the table fits its 32-bit field.
pub open spec fn table_fits(entries: Seq<Seq<u8>>) -> bool {
    stated_len(entries) <= u32::MAX
}

/// The table: a version byte, the flag that allows or forbids reverse
/// lookup, the stated length, the entry count, the offsets and the items.
pub open spec fn table(flag: u8, entries: Seq<Seq<u8>>) -> Seq<u8> {
    seq![1u8, flag] + be_bytes(stated_len(entries), 4) + be_bytes(entries.len() as int, 4)
        + offsets(entries) + items(entries)
}

/// The offsets take four bytes for each entry.
pub proof fn lemma_offsets_len(entries: Seq<Seq<u8>>)
    ensures
        offsets(entries).len() == 4 * entries.len(),
    decreases entries.len(),
{
    if entries.len() > 0 {
        lemma_offsets_len(entries.drop_last());
    }
}

/// The items of a table are at least as long as those of any of its
/// leading parts.
pub proof fn lemma_items_grow(entries: Seq<Seq<u8>>, n: int)
    requires
        0 <= n <= entries.len(),
    ensures
        items(entries.take(n)).len() + 4 * (entries.len() - n) <= items(entries).len(),
    decreases entries.len(),
{
    if n < entries.len() {
        lemma_items_grow(entries.drop_last(), n);
        assert(entries.drop_last().take(n) =~= entries.take(n));
    } else {
        assert(entries.take(n) =~= entries);
    }
}

/// A table that fits keeps fitting when cut short.
pub proof fn lemma_fits_prefix(entries: Seq<Seq<u8>>, n: int)
    requires
        0 <= n <= entries.len(),
        table_fits(entries),
    ensures
        table_fits(entries.take(n)),
{
    lemma_items_grow(entries, n);
}

/// A table under construction.
pub struct Table {
    header: Vec<u8>,
    body: Vec<u8>,
    count: usize,
    held: Ghost<Seq<Seq<u8>>>,
}

impl Table {
    /// The entries pushed so far.
    pub closed spec fn entries(&self) -> Seq<Seq<u8>> {
        self.held@
    }

    /// The bytes built so far are those of the entries, and the table
    /// fits.
    pub closed spec fn wf(&self) -> bool {
        &&& self.header@ == offsets(self.held@)
        &&& self.body@ == items(self.held@)
        &&& self.count == self.held@.len()
        &&& table_fits(self.held@)
    }

    /// A table under construction always fits.
    pub proof fn lemma_fits(&self)
        requires
            self.wf(),
        ensures
            table_fits(self.entries()),
    {
    }

    /// A table without entries.
    pub fn new() -> (t: Table)
        ensures
            t.wf(),
            t.entries() == Seq::<Seq<u8>>::empty(),
    {
        Table { header: Vec::new(), body: Vec::new(), count: 0, held: Ghost(Seq::empty()) }
    }

    /// The number of entries.
    pub fn len(&self) -> (n: usize)
        requires
            self.wf(),
        ensures
            n == self.entries().len(),
    {
        self.count
    }

    /// Whether one more entry of `extra` bytes still fits.
    fn has_room(&self, extra: usize) -> (b: bool)
        requires
            self.wf(),
        ensures
            b == (stated_len(self.held@) + 8 + extra <= u32::MAX),
    {
        proof {
            lemma_offsets_len(self.held@);
        }
        let used: usize = self.header.len() + self.body.len() + 4;
        used <= 0xFFFF_FFFF - 8 && extra <= 0xFFFF_FFFF - 8 - used
    }

    /// Records that the bytes just appended to the body are one entry.
    fn close_entry(&mut self, Ghost(entry): Ghost<Seq<u8>>)
        requires
            old(self).header@ == offsets(old(self).held@),
            old(self).body@ == items(old(self).held@) + framed(entry),
            old(self).count == old(self).held@.len(),
            stated_len(old(self).held@) + 8 + entry.len() <= u32::MAX,
        ensures
            final(self).wf(),
            final(self).entries() == old(self).entries().push(entry),
    {
        let ghost grown = self.held@.push(entry);
        proof {
            assert(grown.drop_last() =~= self.held@);
            lemma_offsets_len(self.held@);
        }
        put_u32_be(&mut self.header, self.body.len() as u32);
        self.count = self.count + 1;
        self.held = Ghost(grown);
    }

    /// Adds an entry, unless the table would no longer fit its 32-bit
    /// fields.
    pub fn push(&mut self, entry: &[u8]) -> (r: Result<(), Error>)
        requires
            old(self).wf(),
        ensures
            final(self).wf(),
            r is Ok <==> table_fits(old(self).entries().push(entry@)),
            match r {
                Ok(()) => final(self).entries() == old(self).entries().push(entry@),
                Err(e) => e == Error::EncodingOverflow && final(self).entries() == old(
                    self,
                ).entries(),
            },
    {
        proof {
            assert(self.held@.push(entry@).drop_last() =~= self.held@);
        }
        if !self.has_room(entry.len()) {
            return Err(Error::EncodingOverflow);
        }
        put_u32_be(&mut self.body, 0);
        put_bytes(&mut self.body, entry);
        assert(self.body@ =~= items(self.held@) + framed(entry@));
        self.close_entry(Ghost(entry@));
        Ok(())
    }

    /// Adds `data` as an entry, packed as `compression` says. The table stays
    /// as it was when the packed entry would not fit, or when the
    /// compressor fails, which it can only with `Compression::LZ4`.
    pub fn push_packed(&mut self, data: &[u8], compression: Compression) -> (r: Result<
        (),
        Error,
    >)
        requires
            old(self).wf(),
        ensures
            final(self).wf(),
            match r {
                Ok(()) => final(self).entries() == old(self).entries().push(
                    packed(data@, compression),
                ),
                Err(e) => final(self).entries() == old(self).entries() && (e
                    == Error::EncodingOverflow || e == Error::Packaging),
            },
            r is Ok ==> table_fits(old(self).entries().push(packed(data@, compression))),
            r == Err::<(), Error>(Error::EncodingOverflow) ==> !table_fits(
                old(self).entries().push(packed(data@, compression)),
            ),
            r == Err::<(), Error>(Error::Packaging) ==> compression == Compression::LZ4,
    {
        let ghost entry = packed(data@, compression);
        proof {
            assert(self.held@.push(entry).drop_last() =~= self.held@);
        }
        let mut block: Vec<u8> = Vec::new();
        match compress(&mut block, data, compression) {
            Ok(()) => {},
            Err(e) => {
                return Err(e);
            },
        }
        assert(block@ =~= framed(entry));
        if !self.has_room(block.len() - 4) {
            return Err(Error::EncodingOverflow);
        }
        put_bytes(&mut self.body, block.as_slice());
        self.close_entry(Ghost(entry));
        Ok(())
    }

    /// Appends the finished table.
    pub fn write(&self, out: &mut Vec<u8>, flag: u8)
        requires
            self.wf(),
        ensures
            final(out)@ == old(out)@ + table(flag, self.entries()),
    {
        proof {
            lemma_offsets_len(self.held@);
        }
        put_u8(out, 1);
        put_u8(out, flag);
        put_u32_be(out, (self.header.len() + self.body.len() + 4) as u32);
        put_u32_be(out, self.count as u32);
        put_bytes(out, self.header.as_slice());
        put_bytes(out, self.body.as_slice());
        assert(out@ =~= old(out)@ + table(flag, self.entries()));
    }
}

/// The number of pieces of at most `size` bytes that `len` bytes fall into.
pub open spec fn chunk_count(len: int, size: int) -> int {
    (len + size - 1) / size
}

/// Piece `k` of `raw`, cut into pieces of `size` bytes; the last piece may
/// be shorter.
pub open spec fn chunk(raw: Seq<u8>, size: int, k: int) -> Seq<u8> {
    raw.subrange(
        k * size,
        if k * size + size < raw.len() {
            k * size + size
        } else {
            raw.len() as int
        },
    )
}

/// The pieces of `raw`, each packed on its own.
pub open spec fn packed_chunks(raw: Seq<u8>, size: int, compression: Compression) -> Seq<Seq<u8>> {
    Seq::new(
        chunk_count(raw.len() as int, size) as nat,
        |k: int| packed(chunk(raw, size, k), compression),
    )
}

/// Piece `k` exists exactly when it starts inside the data.
pub proof fn lemma_chunk_count(len: int, size: int, k: int)
    requires
        0 <= len,
        0 < size,
        0 <= k,
    ensures
        k * size < len <==> k < chunk_count(len, size),
        0 <= chunk_count(len, size),
{
    let q = (len + size - 1) / size;
    assert(q * size <= len + size - 1 < q * size + size) by (nonlinear_arith)
        requires
            q == (len + size - 1) / size,
            0 < size,
    ;
    if k < q {
        assert(k * size + size <= q * size) by (nonlinear_arith)
            requires
                k + 1 <= q,
                0 < size,
        ;
    } else {
        assert(q * size <= k * size) by (nonlinear_arith)
            requires
                q <= k,
                0 < size,
        ;
    }
    if q < 0 {
        assert(q * size + size <= 0) by (nonlinear_arith)
            requires
                q + 1 <= 0,
                0 < size,
        ;
    }
}

impl Table {
    /// The table of the pieces of `raw`, each at most `size` bytes before
    /// it is packed.
    pub fn of_chunks(raw: &[u8], size: usize, compression: Compression) -> (r: Result<
        Table,
        Error,
    >)
        requires
            size > 0,
        ensures
            match r {
                Ok(t) => t.wf() && t.entries() == packed_chunks(raw@, size as int, compression),
                Err(e) => (e == Error::EncodingOverflow && !table_fits(
                    packed_chunks(raw@, size as int, compression),
                )) || (e == Error::Packaging && compression == Compression::LZ4),
            },
    {
        let n: usize = raw.len();
        let ghost all = packed_chunks(raw@, size as int, compression);
        let mut t = Table::new();
        let mut start: usize = 0;
        proof {
            lemma_chunk_count(n as int, size as int, 0);
            assert(all.take(0) =~= t.entries());
        }
        while start < n
            invariant
                start <= n,
                size > 0,
                n == raw@.len(),
                all == packed_chunks(raw@, size as int, compression),
                t.wf(),
                t.entries().len() <= all.len(),
                t.entries() == all.take(t.entries().len() as int),
                start < n ==> start == t.entries().len() * size,
                start == n ==> t.entries().len() == all.len(),
            decreases n - start,
        {
            let ghost k = t.entries().len() as int;
            let end: usize = if n - start > size {
                start + size
            } else {
                n
            };
            proof {
                lemma_chunk_count(n as int, size as int, k);
                lemma_chunk_count(n as int, size as int, k + 1);
                assert((k + 1) * size == k * size + size) by (nonlinear_arith);
                assert(raw@.subrange(start as int, end as int) == chunk(raw@, size as int, k));
                assert(all.take(k).push(all[k]) =~= all.take(k + 1));
            }
            let piece = vstd::slice::slice_subrange(raw, start, end);
            match t.push_packed(piece, compression) {
                Ok(()) => {},
                Err(e) => {
                    proof {
                        if e == Error::EncodingOverflow && table_fits(all) {
                            lemma_fits_prefix(all, k + 1);
                        }
                    }
                    return Err(e);
                },
            }
            start = end;
        }
        proof {
            if n == 0 {
                lemma_chunk_count(0, size as int, 0);
            }
            assert(all.take(all.len() as int) =~= all);
        }
        Ok(t)
    }
}

} // verus!
