//! String columns: a dictionary of the distinct strings and, for each row,
//! the position of its string in the dictionary.

use vstd::prelude::*;
use vstd::utf8::encode_utf8;
use indexmap::IndexSet;
use std::collections::hash_map::RandomState;
use crate::conf::Compression;
use crate::error::Error;
use crate::indexed::{
    lemma_fits_prefix, lemma_items_grow, packed_chunks, table, table_fits, Table,
};
use crate::ordered_set::{
    set_at, set_get_full, set_get_index, set_insert_full, set_items, set_len, set_new, set_sort,
};
use crate::permutation::{
    is_permutation, lemma_permutation_onto, lemma_permuted_keeps_values, names_row, permuted,
};
use crate::text::{
    lemma_ascending_distinct, lemma_stepwise_ascending, lemma_strictly_ascending_distinct,
    lemma_strictly_ascending_order, str_lt, strictly_ascending, text_before, with_texts,
};
use crate::wire::{
    be_bytes, bits32, le_bytes, put_bytes, put_i32_be, put_u16_be, put_u16_le, put_u24_be,
    put_u24_le, put_u32_be, put_u32_le, put_u8,
};

verus! {

/// The number of bytes that hold any id of a dictionary of `len` entries:
/// the fewest that hold the largest id, `len - 1`, and at least one.
pub open spec fn id_width(len: int) -> int {
    if len <= 0x100 {
        1
    } else if len <= 0x1_0000 {
        2
    } else if len <= 0x100_0000 {
        3
    } else if len <= 0x1_0000_0000 {
        4
    } else if len <= 0x100_0000_0000 {
        5
    } else if len <= 0x1_0000_0000_0000 {
        6
    } else if len <= 0x100_0000_0000_0000 {
        7
    } else {
        8
    }
}

/// The first number that `width` bytes cannot hold.
pub open spec fn capacity(width: int) -> int {
    if width <= 0 {
        1
    } else if width == 1 {
        0x100
    } else if width == 2 {
        0x1_0000
    } else if width == 3 {
        0x100_0000
    } else if width == 4 {
        0x1_0000_0000
    } else if width == 5 {
        0x100_0000_0000
    } else if width == 6 {
        0x1_0000_0000_0000
    } else if width == 7 {
        0x100_0000_0000_0000
    } else {
        0x1_0000_0000_0000_0000
    }
}

/// The width of a dictionary is the least that holds its largest id.
pub proof fn lemma_id_width_least(len: int)
    requires
        1 <= len <= 0x1_0000_0000_0000_0000,
    ensures
        1 <= id_width(len) <= 8,
        len - 1 < capacity(id_width(len)),
        id_width(len) > 1 ==> len - 1 >= capacity(id_width(len) - 1),
{
}

/// One id as bytes: most significant byte first in a plain column, least
/// significant first inside compressed blocks. A width that the format
/// lacks gives no bytes.
pub open spec fn id_bytes(val: int, width: int, compression: Compression) -> Seq<u8> {
    if 1 <= width <= 4 {
        match compression {
            Compression::Uncompressed => be_bytes(val, width),
            Compression::LZ4 => le_bytes(val, width),
        }
    } else {
        Seq::<u8>::empty()
    }
}

/// The width in which the ids of one dictionary are written.
#[derive(Debug, Clone, Copy)]
pub struct VInt {
    pub size: usize,
}

impl VInt {
    /// The width for a dictionary of `len` entries: the fewest bytes that
    /// hold the largest id, `len - 1`, and one byte for a dictionary
    /// without entries.
    pub fn new(len: usize) -> (v: VInt)
        ensures
            v.size == id_width(len as int),
            1 <= v.size <= 8,
            len >= 1 ==> len - 1 < capacity(v.size as int),
            v.size > 1 ==> len - 1 >= capacity(v.size - 1),
    {
        let l: u64 = len as u64;
        let size: usize = if l <= 0x100 {
            1
        } else if l <= 0x1_0000 {
            2
        } else if l <= 0x100_0000 {
            3
        } else if l <= 0x1_0000_0000 {
            4
        } else if l <= 0x100_0000_0000 {
            5
        } else if l <= 0x1_0000_0000_0000 {
            6
        } else if l <= 0x100_0000_0000_0000 {
            7
        } else {
            8
        };
        VInt { size }
    }

    /// Appends `val` in this width.
    pub fn write_value(&self, out: &mut Vec<u8>, val: usize, compression: Compression)
        requires
            1 <= self.size <= 4 ==> val < capacity(self.size as int),
        ensures
            final(out)@ == old(out)@ + id_bytes(val as int, self.size as int, compression),
    {
        if self.size == 1 {
            put_u8(out, val as u8);
            assert(out@ =~= old(out)@ + id_bytes(val as int, 1, compression));
        } else if self.size == 2 {
            match compression {
                Compression::Uncompressed => put_u16_be(out, val as u16),
                Compression::LZ4 => put_u16_le(out, val as u16),
            }
        } else if self.size == 3 {
            match compression {
                Compression::Uncompressed => put_u24_be(out, val as u32),
                Compression::LZ4 => put_u24_le(out, val as u32),
            }
        } else if self.size == 4 {
            match compression {
                Compression::Uncompressed => put_u32_be(out, val as u32),
                Compression::LZ4 => put_u32_le(out, val as u32),
            }
        } else {
            assert(out@ =~= old(out)@ + id_bytes(val as int, self.size as int, compression));
        }
    }
}

/// Some row holds the id `k`.
pub open spec fn used(ids: Seq<usize>, k: int) -> bool {
    exists|r: int| 0 <= r < ids.len() && #[trigger] ids[r] == k
}

/// The rows that hold the id `k`, in ascending order.
pub open spec fn rows_of(ids: Seq<usize>, k: int) -> Seq<i32>
    decreases ids.len(),
{
    if ids.len() == 0 {
        Seq::<i32>::empty()
    } else if ids.last() == k {
        rows_of(ids.drop_last(), k).push((ids.len() - 1) as i32)
    } else {
        rows_of(ids.drop_last(), k)
    }
}

/// A string column.
#[derive(Debug)]
pub struct IS {
    keys: IndexSet<String, RandomState>,
    indexes: Vec<usize>,
    sorted: bool,
}

impl IS {
    /// The distinct strings; the position of a string is its id.
    pub closed spec fn dictionary(&self) -> Seq<Seq<char>> {
        set_items(self.keys)
    }

    /// The id of each row.
    pub closed spec fn ids(&self) -> Seq<usize> {
        self.indexes@
    }

    /// Whether the dictionary is known to be in order.
    pub closed spec fn is_sorted(&self) -> bool {
        self.sorted
    }

    /// The string of each row.
    pub open spec fn values(&self) -> Seq<Seq<char>> {
        Seq::new(self.ids().len(), |r: int| self.dictionary()[self.ids()[r] as int])
    }

    /// No string stands twice in the dictionary, every id of a row is the
    /// position of a string, and a dictionary that is said to be in order
    /// is in order.
    pub open spec fn wf(&self) -> bool {
        &&& self.dictionary().no_duplicates()
        &&& forall|r: int| 0 <= r < self.ids().len() ==> #[trigger] self.ids()[r] < self.dictionary().len()
        &&& self.is_sorted() ==> strictly_ascending(self.dictionary())
    }

    /// Every string of the dictionary is the string of some row, so the
    /// dictionary holds the distinct strings of the rows and no others.
    /// A column is so from the start, and stays so unless its rows are
    /// moved by a list that leaves some row out.
    pub open spec fn exact(&self) -> bool {
        forall|k: int| 0 <= k < self.dictionary().len() ==> #[trigger] used(self.ids(), k)
    }

    /// A column without rows.
    pub fn new() -> (s: IS)
        ensures
            s.wf(),
            s.exact(),
            s.values() == Seq::<Seq<char>>::empty(),
            s.dictionary() == Seq::<Seq<char>>::empty(),
            s.is_sorted(),
    {
        let s = IS { keys: set_new(), indexes: Vec::new(), sorted: true };
        assert(s.values() =~= Seq::<Seq<char>>::empty());
        s
    }

    /// Records `s` as the string of one more row.
    pub fn add_s(&mut self, s: String)
        requires
            old(self).wf(),
        ensures
            final(self).wf(),
            final(self).values() == old(self).values().push(s@),
            final(self).dictionary() == if old(self).dictionary().contains(s@) {
                old(self).dictionary()
            } else {
                old(self).dictionary().push(s@)
            },
            final(self).is_sorted() == (old(self).is_sorted() && old(self).dictionary().contains(
                s@,
            )),
            old(self).exact() ==> final(self).exact(),
    {
        let ghost text = s@;
        let (i, fresh) = set_insert_full(&mut self.keys, s);
        self.indexes.push(i);
        if fresh {
            self.sorted = false;
        }
        proof {
            let n = old(self).ids().len() as int;
            assert(self.ids()[n] == i);
            if old(self).exact() {
                assert forall|k: int| 0 <= k < self.dictionary().len() implies #[trigger] used(
                    self.ids(),
                    k,
                ) by {
                    if k < old(self).dictionary().len() {
                        assert(used(old(self).ids(), k));
                        let r = choose|r: int|
                            0 <= r < old(self).ids().len() && old(self).ids()[r] == k;
                        assert(self.ids()[r] == k);
                    } else {
                        assert(self.ids()[n] == k);
                    }
                }
            }
            assert(self.values() =~= old(self).values().push(text));
        }
    }

    /// The number of rows.
    pub fn len(&self) -> (n: usize)
        ensures
            n == self.values().len(),
    {
        self.indexes.len()
    }

    /// Whether the dictionary is known to be in order, as it is after
    /// [`IS::sort`] until a new string arrives.
    pub fn sorted(&self) -> (b: bool)
        ensures
            b == self.is_sorted(),
    {
        self.sorted
    }

    /// Whether the dictionary is in order. It is known to be after
    /// [`IS::sort`]; otherwise the strings are looked at.
    pub fn in_order(&self) -> (b: bool)
        requires
            self.wf(),
        ensures
            b == strictly_ascending(self.dictionary()),
    {
        if self.sorted {
            return true;
        }
        let ghost dict = self.dictionary();
        let d: usize = set_len(&self.keys);
        if d < 2 {
            return true;
        }
        let mut k: usize = 0;
        while k < d - 1
            invariant
                2 <= d,
                k <= d - 1,
                d == dict.len(),
                dict == set_items(self.keys),
                forall|a: int| 0 <= a < k ==> str_lt(#[trigger] dict[a], dict[a + 1]),
            decreases d - 1 - k,
        {
            let here = set_at(&self.keys, k);
            let next = set_at(&self.keys, k + 1);
            if !text_before(here.as_str(), next.as_str()) {
                assert(!str_lt(dict[k as int], dict[k + 1]));
                return false;
            }
            k = k + 1;
        }
        proof {
            assert forall|i: int, j: int| 0 <= i < j < dict.len() implies str_lt(
                #[trigger] dict[i],
                #[trigger] dict[j],
            ) by {
                lemma_stepwise_ascending(dict, i, j);
            }
        }
        true
    }

    /// The number of distinct strings.
    pub fn dictionary_len(&self) -> (n: usize)
        ensures
            n == self.dictionary().len(),
    {
        set_len(&self.keys)
    }

    /// The string with the id `k`.
    pub fn key(&self, k: usize) -> (r: Option<&String>)
        ensures
            match r {
                Some(s) => k < self.dictionary().len() && s@ == self.dictionary()[k as int],
                None => k >= self.dictionary().len(),
            },
    {
        set_get_index(&self.keys, k)
    }

    /// The id of each row.
    pub fn indexes(&self) -> (r: &Vec<usize>)
        ensures
            r@ == self.ids(),
    {
        &self.indexes
    }
}

/// The ids of `ids` after each id `k` has become `remap[k]`.
pub open spec fn remapped(ids: Seq<usize>, remap: Seq<usize>) -> Seq<usize> {
    Seq::new(ids.len(), |r: int| remap[ids[r] as int])
}

impl IS {
    /// Moves the rows of `other` behind the rows of this column and leaves
    /// `other` empty. Strings that only `other` knew join the dictionary,
    /// and every id of `other` is renumbered.
    pub fn append(&mut self, other: &mut IS)
        requires
            old(self).wf(),
            old(other).wf(),
        ensures
            final(self).wf(),
            final(other).wf(),
            final(self).values() == old(self).values() + old(other).values(),
            final(other).values() == Seq::<Seq<char>>::empty(),
            final(other).dictionary() == Seq::<Seq<char>>::empty(),
            final(self).dictionary() == with_texts(old(self).dictionary(), old(other).dictionary()),
            final(other).exact(),
            old(self).exact() && old(other).exact() ==> final(self).exact(),
            final(self).is_sorted() == (old(self).is_sorted() && final(self).dictionary() == old(self).dictionary()),
    {
        let ghost dict0 = self.dictionary();
        let ghost ids0 = self.ids();
        let ghost theirs = other.dictionary();
        let ghost their_ids = other.ids();
        let d: usize = set_len(&other.keys);
        let mut remap: Vec<usize> = Vec::new();
        let mut k: usize = 0;
        while k < d
            invariant
                k <= d,
                d == theirs.len(),
                theirs == set_items(other.keys),
                theirs.no_duplicates(),
                remap@.len() == k,
                self.indexes@ == ids0,
                self.dictionary().no_duplicates(),
                dict0.len() <= self.dictionary().len(),
                forall|a: int| 0 <= a < dict0.len() ==> self.dictionary()[a] == dict0[a],
                forall|a: int|
                    0 <= a < k ==> #[trigger] remap@[a] < self.dictionary().len()
                        && self.dictionary()[remap@[a] as int] == theirs[a],
                forall|m: int|
                    dict0.len() <= m < self.dictionary().len() ==> #[trigger] used(remap@, m),
                self.sorted == (old(self).sorted && self.dictionary() == dict0),
                self.dictionary() == with_texts(dict0, theirs.take(k as int)),
            decreases d - k,
        {
            let ghost before = self.dictionary();
            proof {
                assert(theirs.take(k + 1).drop_last() =~= theirs.take(k as int));
            }
            let ghost remap_before = remap@;
            let key = set_at(&other.keys, k).clone();
            let (i, fresh) = set_insert_full(&mut self.keys, key);
            if fresh {
                self.sorted = false;
            }
            remap.push(i);
            proof {
                assert(remap@[k as int] == i);
                assert forall|m: int|
                    dict0.len() <= m < self.dictionary().len() implies #[trigger] used(
                    remap@,
                    m,
                ) by {
                    if m < before.len() {
                        assert(used(remap_before, m));
                        let a = choose|a: int| 0 <= a < remap_before.len() && remap_before[a] == m;
                        assert(remap@[a] == m);
                    } else {
                        assert(remap@[k as int] == m);
                    }
                }
            }
            k = k + 1;
        }
        proof {
            assert(theirs.take(d as int) =~= theirs);
        }
        let ghost keys1 = self.keys;
        let ghost flag1 = self.sorted;
        let n: usize = other.indexes.len();
        let mut r: usize = 0;
        while r < n
            invariant
                r <= n,
                n == their_ids.len(),
                their_ids == other.indexes@,
                remap@.len() == theirs.len(),
                self.keys == keys1,
                self.sorted == flag1,
                forall|x: int| 0 <= x < their_ids.len() ==> #[trigger] their_ids[x] < theirs.len(),
                self.indexes@ == ids0 + remapped(their_ids.take(r as int), remap@),
            decreases n - r,
        {
            let id: usize = other.indexes[r];
            self.indexes.push(remap[id]);
            r = r + 1;
            assert(self.indexes@ =~= ids0 + remapped(their_ids.take(r as int), remap@));
        }
        proof {
            assert(their_ids.take(n as int) =~= their_ids);
            let joined = self.ids();
            let rows0 = ids0.len() as int;
            assert forall|x: int| 0 <= x < joined.len() implies #[trigger] joined[x]
                < self.dictionary().len() by {
                if x < rows0 {
                    assert(ids0[x] < dict0.len());
                } else {
                    assert(their_ids[x - rows0] < theirs.len());
                }
            }
            if old(self).exact() && old(other).exact() {
                assert forall|m: int| 0 <= m < self.dictionary().len() implies #[trigger] used(
                    joined,
                    m,
                ) by {
                    if m < dict0.len() {
                        assert(used(ids0, m));
                        let x = choose|x: int| 0 <= x < ids0.len() && ids0[x] == m;
                        assert(joined[x] == m);
                    } else {
                        assert(used(remap@, m));
                        let a = choose|a: int| 0 <= a < remap@.len() && remap@[a] == m;
                        assert(used(their_ids, a));
                        let x = choose|x: int| 0 <= x < their_ids.len() && their_ids[x] == a;
                        assert(joined[rows0 + x] == m);
                    }
                }
            }
            assert(self.values() =~= old(self).values() + old(other).values()) by {
                assert forall|x: int| 0 <= x < joined.len() implies self.values()[x] == (old(self).values() + old(other).values())[x] by {
                    if x < rows0 {
                        assert(ids0[x] < dict0.len());
                    } else {
                        assert(their_ids[x - rows0] < theirs.len());
                    }
                }
            }
        }
        *other = IS::new();
    }

    /// Puts the dictionary in order and gives every row the new id of its
    /// string. The strings of the rows stay as they are.
    pub fn sort(&mut self)
        requires
            old(self).wf(),
        ensures
            final(self).wf(),
            final(self).is_sorted(),
            final(self).values() == old(self).values(),
            final(self).dictionary().to_multiset() == old(self).dictionary().to_multiset(),
            old(self).exact() ==> final(self).exact(),
    {
        broadcast use vstd::seq_lib::group_to_multiset_ensures;

        if self.sorted {
            return;
        }
        let ghost dict0 = self.dictionary();
        let ghost ids0 = self.ids();
        let d: usize = set_len(&self.keys);
        let mut ordered = set_new();
        let mut k: usize = 0;
        while k < d
            invariant
                k <= d,
                d == dict0.len(),
                dict0 == set_items(self.keys),
                dict0.no_duplicates(),
                set_items(ordered) == dict0.take(k as int),
            decreases d - k,
        {
            let key = set_at(&self.keys, k).clone();
            assert(!dict0.take(k as int).contains(key@)) by {
                if dict0.take(k as int).contains(key@) {
                    let a = choose|a: int|
                        0 <= a < dict0.take(k as int).len() && dict0.take(k as int)[a] == key@;
                    assert(dict0[a] == dict0[k as int]);
                }
            }
            assert(dict0.take(k as int).push(key@) =~= dict0.take(k + 1));
            let _ = set_insert_full(&mut ordered, key);
            k = k + 1;
        }
        assert(dict0.take(d as int) =~= dict0);
        set_sort(&mut ordered);
        let ghost dict1 = set_items(ordered);
        proof {
            dict0.lemma_multiset_has_no_duplicates();
            dict1.lemma_multiset_has_no_duplicates_conv();
            lemma_ascending_distinct(dict1);
            assert(dict1.len() == dict1.to_multiset().len());
            assert(dict0.len() == dict0.to_multiset().len());
        }
        let mut remap: Vec<usize> = Vec::new();
        let mut k: usize = 0;
        while k < d
            invariant
                k <= d,
                d == dict0.len(),
                dict0 == set_items(self.keys),
                dict1 == set_items(ordered),
                dict1.to_multiset() == dict0.to_multiset(),
                remap@.len() == k,
                forall|a: int|
                    0 <= a < k ==> #[trigger] remap@[a] < dict1.len() && dict1[remap@[a] as int]
                        == dict0[a],
            decreases d - k,
        {
            let key = set_at(&self.keys, k);
            proof {
                dict0.to_multiset_ensures();
                dict1.to_multiset_ensures();
                assert(dict0.contains(dict0[k as int]));
                assert(dict1.to_multiset().count(key@) > 0);
            }
            let (at, _) = set_get_full(&ordered, key).unwrap();
            remap.push(at);
            k = k + 1;
        }
        let n: usize = self.indexes.len();
        let mut moved: Vec<usize> = Vec::new();
        let mut r: usize = 0;
        while r < n
            invariant
                r <= n,
                n == ids0.len(),
                ids0 == self.indexes@,
                remap@.len() == dict0.len(),
                forall|x: int| 0 <= x < ids0.len() ==> #[trigger] ids0[x] < dict0.len(),
                moved@ == remapped(ids0.take(r as int), remap@),
            decreases n - r,
        {
            let id: usize = self.indexes[r];
            moved.push(remap[id]);
            r = r + 1;
            assert(moved@ =~= remapped(ids0.take(r as int), remap@));
        }
        proof {
            assert(ids0.take(n as int) =~= ids0);
        }
        self.keys = ordered;
        self.indexes = moved;
        self.sorted = true;
        proof {
            let ids1 = self.ids();
            assert forall|x: int| 0 <= x < ids1.len() implies #[trigger] ids1[x] < dict1.len() by {
                assert(ids0[x] < dict0.len());
            }
            assert forall|j: int| old(self).exact() && 0 <= j < dict1.len() implies #[trigger] used(
                ids1,
                j,
            ) by {
                assert(dict1.contains(dict1[j]));
                assert(dict1.to_multiset().count(dict1[j]) > 0);
                assert(dict0.to_multiset().count(dict1[j]) > 0);
                assert(dict0.contains(dict1[j]));
                let a = choose|a: int| 0 <= a < dict0.len() && dict0[a] == dict1[j];
                assert(used(ids0, a));
                let x = choose|x: int| 0 <= x < ids0.len() && ids0[x] == a;
                assert(dict1[remap@[a] as int] == dict1[j]);
                assert(remap@[a] == j);
                assert(ids1[x] == j);
            }
            assert(self.values() =~= old(self).values()) by {
                assert forall|x: int| 0 <= x < ids1.len() implies self.values()[x] == old(self).values()[x] by {
                    assert(ids0[x] < dict0.len());
                }
            }
        }
    }

    /// Puts the dictionary in order, then moves the rows: row `i` gets what
    /// row `permutation[i]` held. Under a permutation every string keeps
    /// its number of rows; a list that names a row twice and leaves
    /// another out is taken too, and the string of a row left out stays
    /// in the dictionary.
    pub fn sort_and_permute(&mut self, permutation: &[usize])
        requires
            old(self).wf(),
            permutation@.len() == old(self).values().len(),
            forall|i: int|
                0 <= i < permutation@.len() ==> #[trigger] permutation@[i] < permutation@.len(),
        ensures
            final(self).wf(),
            final(self).is_sorted(),
            final(self).values() == permuted(old(self).values(), permutation@),
            final(self).dictionary().to_multiset() == old(self).dictionary().to_multiset(),
            is_permutation(permutation@) ==> final(self).values().to_multiset() == old(self).values().to_multiset(),
            is_permutation(permutation@) && old(self).exact() ==> final(self).exact(),
    {
        self.sort();
        let ghost ids1 = self.ids();
        let ghost dict1 = self.dictionary();
        let n: usize = permutation.len();
        let mut moved: Vec<usize> = Vec::new();
        let mut dest: usize = 0;
        while dest < n
            invariant
                dest <= n,
                n == permutation@.len(),
                n == ids1.len(),
                ids1 == self.indexes@,
                forall|i: int| 0 <= i < n ==> #[trigger] permutation@[i] < n,
                moved@ == permuted(ids1, permutation@.take(dest as int)),
            decreases n - dest,
        {
            let from: usize = permutation[dest];
            assert(permutation@[dest as int] < n);
            moved.push(self.indexes[from]);
            dest = dest + 1;
            assert(moved@ =~= permuted(ids1, permutation@.take(dest as int)));
        }
        proof {
            assert(permutation@.take(n as int) =~= permutation@);
        }
        self.indexes = moved;
        proof {
            let ids2 = self.ids();
            assert forall|x: int| 0 <= x < ids2.len() implies #[trigger] ids2[x] < dict1.len() by {
                assert(permutation@[x] < n);
                assert(ids1[permutation@[x] as int] < dict1.len());
            }
            if is_permutation(permutation@) {
                lemma_permutation_onto(permutation@);
                lemma_permuted_keeps_values(old(self).values(), permutation@);
                if old(self).exact() {
                    assert forall|j: int| 0 <= j < dict1.len() implies #[trigger] used(ids2, j) by {
                        assert(used(ids1, j));
                        let x = choose|x: int| 0 <= x < ids1.len() && ids1[x] == j;
                        assert(names_row(permutation@, x));
                        let at = choose|at: int|
                            0 <= at < permutation@.len() && permutation@[at] == x;
                        assert(ids2[at] == j);
                    }
                }
            }
            assert(self.values() =~= permuted(old(self).values(), permutation@)) by {
                assert forall|x: int| 0 <= x < ids2.len() implies self.values()[x] == permuted(
                    old(self).values(),
                    permutation@,
                )[x] by {
                    assert(permutation@[x] < n);
                }
            }
        }
    }

    /// For each id, the rows that hold it, in ascending order: what a
    /// bitmap of the id is built from. Every row stands in the list of
    /// its id and in no other, so the lists together have one entry for
    /// each row. Fails when a row number does not fit the 31 bits that a
    /// bitmap has for it.
    pub fn positions(&self) -> (r: Result<Vec<Vec<i32>>, Error>)
        requires
            self.wf(),
        ensures
            match r {
                Ok(lists) => {
                    &&& self.ids().len() <= i32::MAX
                    &&& lists@.len() == self.dictionary().len()
                    &&& forall|k: int|
                        0 <= k < lists@.len() ==> (#[trigger] lists@[k])@ == rows_of(self.ids(), k)
                    &&& forall|k: int, row: int|
                        0 <= k < lists@.len() && 0 <= row < self.ids().len() ==> (#[trigger] rows_of(
                            self.ids(),
                            k,
                        ).contains(row as i32) <==> self.ids()[row] == k)
                    &&& forall|k: int, x: int, y: int|
                        0 <= k < lists@.len() && 0 <= x < y < rows_of(self.ids(), k).len()
                            ==> #[trigger] rows_of(self.ids(), k)[x] < #[trigger] rows_of(
                            self.ids(),
                            k,
                        )[y]
                    &&& positions_total(self.ids(), self.dictionary().len() as int)
                        == self.ids().len()
                },
                Err(e) => e == Error::EncodingOverflow && self.ids().len() > i32::MAX,
            },
    {
        let n: usize = self.indexes.len();
        if n > 0x7FFF_FFFF {
            return Err(Error::EncodingOverflow);
        }
        let d: usize = set_len(&self.keys);
        let mut lists: Vec<Vec<i32>> = Vec::new();
        let mut k: usize = 0;
        while k < d
            invariant
                k <= d,
                lists@.len() == k,
                forall|a: int| 0 <= a < k ==> (#[trigger] lists@[a])@ == Seq::<i32>::empty(),
            decreases d - k,
        {
            lists.push(Vec::new());
            k = k + 1;
        }
        let ghost ids = self.ids();
        let mut r: usize = 0;
        while r < n
            invariant
                r <= n,
                n == ids.len(),
                n <= 0x7FFF_FFFF,
                ids == self.indexes@,
                lists@.len() == d,
                d == self.dictionary().len(),
                forall|x: int| 0 <= x < ids.len() ==> #[trigger] ids[x] < d,
                forall|a: int|
                    0 <= a < d ==> (#[trigger] lists@[a])@ == rows_of(ids.take(r as int), a),
            decreases n - r,
        {
            let id: usize = self.indexes[r];
            assert(ids[r as int] < d);
            let ghost before = lists@;
            lists[id].push(r as i32);
            proof {
                assert(ids.take(r + 1).drop_last() =~= ids.take(r as int));
                assert(ids.take(r + 1).last() == id);
                assert forall|a: int| 0 <= a < d implies (#[trigger] lists@[a])@ == rows_of(
                    ids.take(r + 1),
                    a,
                ) by {
                    assert(before[a]@ == rows_of(ids.take(r as int), a));
                }
            }
            r = r + 1;
        }
        proof {
            assert(ids.take(n as int) =~= ids);
            lemma_positions_cover(ids, d as int);
            assert forall|k: int, row: int| 0 <= k < d && 0 <= row < ids.len() implies (
            #[trigger] rows_of(ids, k).contains(row as i32) <==> ids[row] == k) by {
                lemma_rows_of_holds(ids, k, row);
            }
            assert forall|k: int, x: int, y: int|
                0 <= k < d && 0 <= x < y < rows_of(ids, k).len() implies #[trigger] rows_of(
                ids,
                k,
            )[x] < #[trigger] rows_of(ids, k)[y] by {
                lemma_rows_of_ascend(ids, k, x, y);
            }
        }
        Ok(lists)
    }
}

/// The entries of a dictionary table: each string in UTF-8.
pub open spec fn dictionary_entries(dict: Seq<Seq<char>>) -> Seq<Seq<u8>> {
    Seq::new(dict.len(), |k: int| encode_utf8(dict[k]))
}

/// The ids of all rows, one after another, each in `width` bytes.
pub open spec fn id_array(ids: Seq<usize>, width: int, compression: Compression) -> Seq<u8>
    decreases ids.len(),
{
    if ids.len() == 0 {
        Seq::<u8>::empty()
    } else {
        id_array(ids.drop_last(), width, compression) + id_bytes(
            ids.last() as int,
            width,
            compression,
        )
    }
}

/// The words of one bitmap, each as four bytes, most significant first.
pub open spec fn words_bytes(words: Seq<i32>) -> Seq<u8>
    decreases words.len(),
{
    if words.len() == 0 {
        Seq::<u8>::empty()
    } else {
        words_bytes(words.drop_last()) + be_bytes(bits32(words.last()), 4)
    }
}

/// The word lists that a vector of bitmaps holds.
pub open spec fn word_lists(bitmaps: Seq<Vec<i32>>) -> Seq<Seq<i32>> {
    Seq::new(bitmaps.len(), |k: int| bitmaps[k]@)
}

/// The entries of a bitmap table: the words of each bitmap as bytes.
pub open spec fn bitmap_entries(lists: Seq<Seq<i32>>) -> Seq<Seq<u8>> {
    Seq::new(lists.len(), |k: int| words_bytes(lists[k]))
}

/// The number of ids in one compressed block.
pub open spec fn chunk_factor(width: int) -> int {
    if width <= 1 {
        65536
    } else if width == 2 {
        32768
    } else if width == 3 {
        16384
    } else {
        8192
    }
}

/// `n` zero bytes.
pub open spec fn zeros(n: int) -> Seq<u8> {
    Seq::new(if n > 0 { n as nat } else { 0 }, |i: int| 0u8)
}

/// The part of a string column that holds the ids, given the ids as bytes.
/// Plain, it is the bytes behind their length, padded so that four bytes
/// can be read at the last id; compressed, it is a table of packed blocks
/// behind the row count and the number of ids per block.
pub open spec fn id_frame(raw: Seq<u8>, rows: int, width: int, compression: Compression) -> Seq<
    u8,
> {
    match compression {
        Compression::Uncompressed => seq![0u8, width as u8] + be_bytes(
            raw.len() + 4 - width,
            4,
        ) + raw + zeros(4 - width),
        Compression::LZ4 => seq![2u8, width as u8] + be_bytes(rows, 4) + be_bytes(
            chunk_factor(width),
            4,
        ) + seq![compression.spec_id()] + table(
            0,
            packed_chunks(raw, chunk_factor(width) * width, compression),
        ),
    }
}

/// Whether the numbers of the id part fit their 32-bit fields.
pub open spec fn id_frame_fits(raw: Seq<u8>, rows: int, width: int, compression: Compression) -> bool {
    match compression {
        Compression::Uncompressed => raw.len() + 4 - width <= u32::MAX,
        Compression::LZ4 => rows <= u32::MAX && table_fits(
            packed_chunks(raw, chunk_factor(width) * width, compression),
        ),
    }
}

/// What stands before the dictionary: the version of the layout, and for
/// the compressed layout four bytes of flags, all zero.
pub open spec fn section_head(compression: Compression) -> Seq<u8> {
    match compression {
        Compression::Uncompressed => seq![0u8],
        Compression::LZ4 => seq![2u8] + be_bytes(0, 4),
    }
}

/// A string column: the dictionary, the id of each row, and one bitmap
/// per dictionary entry.
pub open spec fn string_section(
    dict: Seq<Seq<char>>,
    ids: Seq<usize>,
    lists: Seq<Seq<i32>>,
    compression: Compression,
) -> Seq<u8> {
    let width = id_width(dict.len() as int);
    section_head(compression) + table(1, dictionary_entries(dict)) + id_frame(
        id_array(ids, width, compression),
        ids.len() as int,
        width,
        compression,
    ) + table(0, bitmap_entries(lists))
}

/// Whether every count and length of the column fits its 32-bit field.
pub open spec fn string_section_fits(
    dict: Seq<Seq<char>>,
    ids: Seq<usize>,
    lists: Seq<Seq<i32>>,
    compression: Compression,
) -> bool {
    let width = id_width(dict.len() as int);
    &&& table_fits(dictionary_entries(dict))
    &&& table_fits(bitmap_entries(lists))
    &&& id_frame_fits(id_array(ids, width, compression), ids.len() as int, width, compression)
}

/// A dictionary whose table fits has ids of at most four bytes.
pub proof fn lemma_fitting_dictionary_width(dict: Seq<Seq<char>>)
    requires
        table_fits(dictionary_entries(dict)),
    ensures
        1 <= id_width(dict.len() as int) <= 4,
        dict.len() <= capacity(id_width(dict.len() as int)),
{
    let entries = dictionary_entries(dict);
    lemma_items_grow(entries, 0);
}

/// Appends the words of one bitmap.
pub fn put_words(out: &mut Vec<u8>, words: &Vec<i32>)
    ensures
        final(out)@ == old(out)@ + words_bytes(words@),
{
    let n: usize = words.len();
    let mut i: usize = 0;
    assert(out@ =~= old(out)@ + words_bytes(words@.take(0)));
    while i < n
        invariant
            i <= n,
            n == words@.len(),
            out@ == old(out)@ + words_bytes(words@.take(i as int)),
        decreases n - i,
    {
        put_i32_be(out, words[i]);
        proof {
            assert(words@.take(i + 1).drop_last() =~= words@.take(i as int));
            assert(out@ =~= old(out)@ + words_bytes(words@.take(i + 1)));
        }
        i = i + 1;
    }
    assert(words@.take(n as int) =~= words@);
}

/// The table of the bitmaps, one entry per dictionary id.
pub fn bitmap_table(bitmaps: &Vec<Vec<i32>>) -> (r: Result<Table, Error>)
    ensures
        match r {
            Ok(t) => t.wf() && t.entries() == bitmap_entries(word_lists(bitmaps@)),
            Err(e) => e == Error::EncodingOverflow && !table_fits(
                bitmap_entries(word_lists(bitmaps@)),
            ),
        },
{
    let ghost all = bitmap_entries(word_lists(bitmaps@));
    let n: usize = bitmaps.len();
    let mut t = Table::new();
    let mut k: usize = 0;
    assert(all.take(0) =~= t.entries());
    while k < n
        invariant
            k <= n,
            n == bitmaps@.len(),
            all == bitmap_entries(word_lists(bitmaps@)),
            t.wf(),
            t.entries() == all.take(k as int),
        decreases n - k,
    {
        let mut bytes: Vec<u8> = Vec::new();
        put_words(&mut bytes, &bitmaps[k]);
        proof {
            assert(bytes@ =~= all[k as int]);
            assert(all.take(k as int).push(all[k as int]) =~= all.take(k + 1));
        }
        match t.push(bytes.as_slice()) {
            Ok(()) => {},
            Err(e) => {
                proof {
                    if table_fits(all) {
                        lemma_fits_prefix(all, k + 1);
                    }
                }
                return Err(e);
            },
        }
        k = k + 1;
    }
    assert(all.take(n as int) =~= all);
    Ok(t)
}

/// Appends the id part of a string column, or nothing when one of its
/// numbers does not fit or the compressor fails.
pub fn write_id_frame(
    out: &mut Vec<u8>,
    raw: &[u8],
    rows: usize,
    width: usize,
    compression: Compression,
) -> (r: Result<(), Error>)
    requires
        1 <= width <= 4,
    ensures
        match r {
            Ok(()) => id_frame_fits(raw@, rows as int, width as int, compression) && final(out)@
                == old(out)@ + id_frame(raw@, rows as int, width as int, compression),
            Err(e) => final(out)@ == old(out)@ && ((e == Error::EncodingOverflow
                && !id_frame_fits(raw@, rows as int, width as int, compression)) || (e
                == Error::Packaging && compression == Compression::LZ4)),
        },
{
    match compression {
        Compression::Uncompressed => {
            let pad: usize = 4 - width;
            if raw.len() > 0xFFFF_FFFF - pad {
                return Err(Error::EncodingOverflow);
            }
            put_u8(out, 0);
            put_u8(out, width as u8);
            put_u32_be(out, (raw.len() + pad) as u32);
            put_bytes(out, raw);
            let ghost before = out@;
            let mut i: usize = 0;
            while i < pad
                invariant
                    i <= pad,
                    out@ == before + zeros(i as int),
                decreases pad - i,
            {
                put_u8(out, 0);
                i = i + 1;
                assert(out@ =~= before + zeros(i as int));
            }
            assert(out@ =~= old(out)@ + id_frame(raw@, rows as int, width as int, compression));
            Ok(())
        },
        Compression::LZ4 => {
            if rows > 0xFFFF_FFFF {
                return Err(Error::EncodingOverflow);
            }
            let factor: usize = if width == 1 {
                65536
            } else if width == 2 {
                32768
            } else if width == 3 {
                16384
            } else {
                8192
            };
            let blocks = match Table::of_chunks(raw, factor * width, compression) {
                Ok(t) => t,
                Err(e) => {
                    return Err(e);
                },
            };
            proof {
                blocks.lemma_fits();
            }
            put_u8(out, 2);
            put_u8(out, width as u8);
            put_u32_be(out, rows as u32);
            put_u32_be(out, factor as u32);
            put_u8(out, compression.id());
            blocks.write(out, 0);
            assert(out@ =~= old(out)@ + id_frame(raw@, rows as int, width as int, compression));
            Ok(())
        },
    }
}

impl IS {
    /// Why this column cannot be written with `bitmaps` bitmaps, if it
    /// cannot: its dictionary must be in order, whether it was sorted or
    /// filled in order, and there must be one bitmap for each entry.
    pub open spec fn refusal(&self, bitmaps: int) -> Option<Error> {
        if !strictly_ascending(self.dictionary()) {
            Some(Error::NotSorted)
        } else if bitmaps != self.dictionary().len() {
            Some(Error::MissingBitmap)
        } else {
            None
        }
    }

    /// The table of the dictionary.
    pub fn dictionary_table(&self) -> (r: Result<Table, Error>)
        ensures
            match r {
                Ok(t) => t.wf() && t.entries() == dictionary_entries(self.dictionary()),
                Err(e) => e == Error::EncodingOverflow && !table_fits(
                    dictionary_entries(self.dictionary()),
                ),
            },
    {
        let ghost all = dictionary_entries(self.dictionary());
        let d: usize = set_len(&self.keys);
        let mut t = Table::new();
        let mut k: usize = 0;
        assert(all.take(0) =~= t.entries());
        while k < d
            invariant
                k <= d,
                d == self.dictionary().len(),
                all == dictionary_entries(self.dictionary()),
                t.wf(),
                t.entries() == all.take(k as int),
            decreases d - k,
        {
            let bytes = set_at(&self.keys, k).as_str().as_bytes();
            proof {
                assert(bytes@ == all[k as int]);
                assert(all.take(k as int).push(all[k as int]) =~= all.take(k + 1));
            }
            match t.push(bytes) {
                Ok(()) => {},
                Err(e) => {
                    proof {
                        if table_fits(all) {
                            lemma_fits_prefix(all, k + 1);
                        }
                    }
                    return Err(e);
                },
            }
            k = k + 1;
        }
        assert(all.take(d as int) =~= all);
        Ok(t)
    }

    /// The ids of all rows as bytes, each in the width `vint`.
    pub fn raw_ids(&self, vint: VInt, compression: Compression) -> (raw: Vec<u8>)
        requires
            self.wf(),
            1 <= vint.size <= 4 ==> self.dictionary().len() <= capacity(vint.size as int),
        ensures
            raw@ == id_array(self.ids(), vint.size as int, compression),
    {
        let ghost ids = self.ids();
        let n: usize = self.indexes.len();
        let mut raw: Vec<u8> = Vec::new();
        let mut r: usize = 0;
        while r < n
            invariant
                r <= n,
                n == ids.len(),
                ids == self.indexes@,
                forall|x: int| 0 <= x < ids.len() ==> #[trigger] ids[x] < self.dictionary().len(),
                1 <= vint.size <= 4 ==> self.dictionary().len() <= capacity(vint.size as int),
                raw@ == id_array(ids.take(r as int), vint.size as int, compression),
            decreases n - r,
        {
            assert(ids[r as int] < self.dictionary().len());
            vint.write_value(&mut raw, self.indexes[r], compression);
            proof {
                assert(ids.take(r + 1).drop_last() =~= ids.take(r as int));
            }
            r = r + 1;
        }
        assert(ids.take(n as int) =~= ids);
        raw
    }

    /// Appends the column: dictionary, ids and bitmaps. `bitmaps` holds the
    /// compressed words of the bitmap of each dictionary id, as a bitmap
    /// encoder made them from [`IS::positions`]. Nothing is appended
    /// when the column is refused.
    pub fn write(
        &self,
        bitmaps: &Vec<Vec<i32>>,
        compression: Compression,
        writer: &mut Vec<u8>,
    ) -> (r: Result<(), Error>)
        requires
            self.wf(),
        ensures
            r is Err ==> final(writer)@ == old(writer)@,
            self.refusal(bitmaps@.len() as int) matches Some(e) ==> r == Err::<(), Error>(e),
            self.refusal(bitmaps@.len() as int) is None ==> match r {
                Ok(()) => string_section_fits(
                    self.dictionary(),
                    self.ids(),
                    word_lists(bitmaps@),
                    compression,
                ) && final(writer)@ == old(writer)@ + string_section(
                    self.dictionary(),
                    self.ids(),
                    word_lists(bitmaps@),
                    compression,
                ),
                Err(e) => (e == Error::EncodingOverflow && !string_section_fits(
                    self.dictionary(),
                    self.ids(),
                    word_lists(bitmaps@),
                    compression,
                )) || (e == Error::Packaging && compression == Compression::LZ4),
            },
    {
        if !self.in_order() {
            return Err(Error::NotSorted);
        }
        if bitmaps.len() != set_len(&self.keys) {
            return Err(Error::MissingBitmap);
        }
        let names = match self.dictionary_table() {
            Ok(t) => t,
            Err(e) => {
                return Err(e);
            },
        };
        let maps = match bitmap_table(bitmaps) {
            Ok(t) => t,
            Err(e) => {
                return Err(e);
            },
        };
        proof {
            names.lemma_fits();
            maps.lemma_fits();
            lemma_fitting_dictionary_width(self.dictionary());
        }
        let vint = VInt::new(set_len(&self.keys));
        let raw = self.raw_ids(vint, compression);
        let mut ids: Vec<u8> = Vec::new();
        match write_id_frame(&mut ids, raw.as_slice(), self.indexes.len(), vint.size, compression) {
            Ok(()) => {},
            Err(e) => {
                return Err(e);
            },
        }
        match compression {
            Compression::Uncompressed => {
                put_u8(writer, 0);
            },
            Compression::LZ4 => {
                put_u8(writer, 2);
                put_u32_be(writer, 0);
            },
        }
        assert(writer@ =~= old(writer)@ + section_head(compression));
        names.write(writer, 1);
        put_bytes(writer, ids.as_slice());
        maps.write(writer, 0);
        assert(writer@ =~= old(writer)@ + string_section(
            self.dictionary(),
            self.ids(),
            word_lists(bitmaps@),
            compression,
        ));
        Ok(())
    }
}

/// The number of entries in the row lists of the ids below `d`.
pub open spec fn positions_total(ids: Seq<usize>, d: int) -> int
    decreases d,
{
    if d <= 0 {
        0
    } else {
        positions_total(ids, d - 1) + rows_of(ids, d - 1).len()
    }
}

proof fn lemma_total_grows(ids: Seq<usize>, d: int)
    requires
        ids.len() > 0,
        0 <= d,
    ensures
        positions_total(ids, d) == positions_total(ids.drop_last(), d) + if ids.last() < d {
            1int
        } else {
            0int
        },
    decreases d,
{
    if d > 0 {
        lemma_total_grows(ids, d - 1);
    }
}

/// The row lists of all ids together have one entry for each row.
pub proof fn lemma_positions_cover(ids: Seq<usize>, d: int)
    requires
        forall|r: int| 0 <= r < ids.len() ==> #[trigger] ids[r] < d,
    ensures
        positions_total(ids, d) == ids.len(),
    decreases ids.len(),
{
    if ids.len() == 0 {
        lemma_total_of_none(ids, d);
    } else {
        assert(ids.last() < d);
        lemma_total_grows(ids, d);
        assert forall|r: int| 0 <= r < ids.drop_last().len() implies #[trigger] ids.drop_last()[r]
            < d by {
            assert(ids[r] < d);
        }
        lemma_positions_cover(ids.drop_last(), d);
    }
}

proof fn lemma_total_of_none(ids: Seq<usize>, d: int)
    requires
        ids.len() == 0,
    ensures
        positions_total(ids, d) == 0,
    decreases d,
{
    if d > 0 {
        lemma_total_of_none(ids, d - 1);
    }
}

/// The row list of an id holds exactly the rows with that id.
pub proof fn lemma_rows_of_holds(ids: Seq<usize>, k: int, r: int)
    requires
        ids.len() <= i32::MAX,
        0 <= r < ids.len(),
    ensures
        rows_of(ids, k).contains(r as i32) <==> ids[r] == k,
        forall|x: int|
            0 <= x < rows_of(ids, k).len() ==> 0 <= #[trigger] rows_of(ids, k)[x] < ids.len(),
    decreases ids.len(),
{
    let list = rows_of(ids, k);
    let front = ids.drop_last();
    let last = ids.len() - 1;
    if last > 0 {
        lemma_rows_of_holds(front, k, if r < last {
            r
        } else {
            0
        });
    }
    let shorter = rows_of(front, k);
    assert forall|x: int| 0 <= x < list.len() implies 0 <= #[trigger] list[x] < ids.len() by {
        if x < shorter.len() {
            assert(0 <= shorter[x] < front.len());
        }
    }
    if r < last {
        assert(front[r] == ids[r]);
        if shorter.contains(r as i32) {
            let x = choose|x: int| 0 <= x < shorter.len() && shorter[x] == r as i32;
            assert(list[x] == r as i32);
        }
        if list.contains(r as i32) {
            let x = choose|x: int| 0 <= x < list.len() && list[x] == r as i32;
            if x < shorter.len() {
                assert(shorter[x] == r as i32);
            }
        }
    } else {
        if ids[r] == k {
            assert(list[list.len() - 1] == r as i32);
        }
        if list.contains(r as i32) {
            let x = choose|x: int| 0 <= x < list.len() && list[x] == r as i32;
            if x < shorter.len() {
                assert(0 <= shorter[x] < front.len());
            }
        }
    }
}

/// The row list of an id is in ascending order.
pub proof fn lemma_rows_of_ascend(ids: Seq<usize>, k: int, x: int, y: int)
    requires
        ids.len() <= i32::MAX,
        0 <= x < y < rows_of(ids, k).len(),
    ensures
        rows_of(ids, k)[x] < rows_of(ids, k)[y],
    decreases ids.len(),
{
    let front = ids.drop_last();
    let shorter = rows_of(front, k);
    if ids.len() > 0 {
        if y < shorter.len() {
            lemma_rows_of_ascend(front, k, x, y);
        } else if front.len() > 0 {
            lemma_rows_of_holds(front, k, 0);
            assert(0 <= shorter[x] < front.len());
        }
    }
}

impl IS {
    /// The ids of a column are the numbers below the number of distinct
    /// strings, and each of them is the id of some row.
    pub proof fn lemma_ids_contiguous(&self)
        requires
            self.wf(),
            self.exact(),
        ensures
            forall|r: int|
                0 <= r < self.ids().len() ==> #[trigger] self.ids()[r] < self.dictionary().len(),
            forall|k: int| 0 <= k < self.dictionary().len() ==> #[trigger] used(self.ids(), k),
            self.dictionary().len() == self.values().to_set().len(),
    {
        let dict = self.dictionary();
        let values = self.values();
        dict.unique_seq_to_set();
        assert(dict.to_set() =~= values.to_set()) by {
            assert forall|x: Seq<char>| dict.to_set().contains(x) implies values.to_set().contains(
                x,
            ) by {
                let k = choose|k: int| 0 <= k < dict.len() && dict[k] == x;
                assert(used(self.ids(), k));
                let r = choose|r: int| 0 <= r < self.ids().len() && self.ids()[r] == k;
                assert(values[r] == x);
            }
            assert forall|x: Seq<char>| values.to_set().contains(x) implies dict.to_set().contains(
                x,
            ) by {
                let r = choose|r: int| 0 <= r < values.len() && values[r] == x;
                assert(self.ids()[r] < dict.len());
                assert(dict[self.ids()[r] as int] == x);
            }
        }
    }

    /// In a column whose dictionary is in order, the ids of two rows
    /// compare as their strings do.
    pub proof fn lemma_ids_follow_strings(&self, a: int, b: int)
        requires
            self.wf(),
            self.is_sorted(),
            0 <= a < self.ids().len(),
            0 <= b < self.ids().len(),
        ensures
            self.ids()[a] < self.ids()[b] <==> str_lt(self.values()[a], self.values()[b]),
            self.ids()[a] == self.ids()[b] <==> self.values()[a] == self.values()[b],
    {
        assert(self.ids()[a] < self.dictionary().len());
        assert(self.ids()[b] < self.dictionary().len());
        lemma_strictly_ascending_order(
            self.dictionary(),
            self.ids()[a] as int,
            self.ids()[b] as int,
        );
        lemma_strictly_ascending_distinct(self.dictionary());
    }
}

} // verus!
