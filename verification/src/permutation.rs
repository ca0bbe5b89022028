//! Row permutations: the one that sorts a timestamp column, and how a
//! permutation is applied to a column in place.

use vstd::prelude::*;
use vstd::set_lib::{lemma_int_range, lemma_subset_equality, set_int_range};

verus! {

/// `p` names each of the rows `0..p.len()` exactly once.
pub open spec fn is_permutation(p: Seq<usize>) -> bool {
    &&& forall|i: int| 0 <= i < p.len() ==> #[trigger] p[i] < p.len()
    &&& forall|i: int, j: int| 0 <= i < j < p.len() ==> #[trigger] p[i] != #[trigger] p[j]
}

/// The column in which row `i` holds what row `p[i]` of `src` held.
pub open spec fn permuted<T>(src: Seq<T>, p: Seq<usize>) -> Seq<T> {
    Seq::new(p.len(), |i: int| src[p[i] as int])
}

/// The rows that `p` names are in the order of their keys.
pub open spec fn sorted_by_key(p: Seq<usize>, keys: Seq<i64>) -> bool {
    forall|i: int, j: int|
        0 <= i <= j < p.len() ==> keys[#[trigger] p[i] as int] <= keys[#[trigger] p[j] as int]
}

/// No value of the column is smaller than one before it.
pub open spec fn non_decreasing(s: Seq<i64>) -> bool {
    forall|i: int, j: int| 0 <= i <= j < s.len() ==> s[i] <= s[j]
}

/// The rows `0..n` in their own order.
pub open spec fn identity(n: nat) -> Seq<usize> {
    Seq::new(n, |i: int| i as usize)
}

/// Some position of `p` names row `r`.
pub open spec fn names_row(p: Seq<usize>, r: int) -> bool {
    exists|d: int| 0 <= d < p.len() && #[trigger] p[d] == r
}

/// Every row is named by some position of a permutation.
pub proof fn lemma_permutation_onto(p: Seq<usize>)
    requires
        is_permutation(p),
    ensures
        forall|r: int| 0 <= r < p.len() ==> #[trigger] names_row(p, r),
{
    let n = p.len() as int;
    let s = p.map_values(|x: usize| x as int);
    assert(s.no_duplicates());
    s.unique_seq_to_set();
    lemma_int_range(0, n);
    assert(s.to_set().subset_of(set_int_range(0, n))) by {
        assert forall|x: int| s.to_set().contains(x) implies set_int_range(0, n).contains(x) by {
            let d = choose|d: int| 0 <= d < s.len() && s[d] == x;
            assert(p[d] < p.len());
        }
    }
    vstd::seq_lib::seq_to_set_is_finite(s);
    lemma_subset_equality(s.to_set(), set_int_range(0, n));
    assert forall|r: int| 0 <= r < p.len() implies #[trigger] names_row(p, r) by {
        assert(set_int_range(0, n).contains(r));
        assert(s.to_set().contains(r));
        let d = choose|d: int| 0 <= d < s.len() && s[d] == r;
        assert(p[d] == r);
    }
}

/// A permutation names every row at exactly one position, so applying it
/// neither loses a row nor repeats one.
pub proof fn lemma_each_row_once(p: Seq<usize>, r: int)
    requires
        is_permutation(p),
        0 <= r < p.len(),
    ensures
        names_row(p, r),
        forall|i: int, j: int|
            0 <= i < p.len() && 0 <= j < p.len() && p[i] == r && p[j] == r ==> i == j,
{
    lemma_permutation_onto(p);
    assert forall|i: int, j: int|
        0 <= i < p.len() && 0 <= j < p.len() && p[i] == r && p[j] == r implies i == j by {
        if i < j {
            assert(p[i] != p[j]);
        } else if j < i {
            assert(p[j] != p[i]);
        }
    }
}

/// A column keeps its values under a permutation of its rows, each value
/// as often as before.
pub proof fn lemma_permuted_keeps_values<T>(src: Seq<T>, p: Seq<usize>)
    requires
        is_permutation(p),
        p.len() == src.len(),
    ensures
        permuted(src, p).to_multiset() == src.to_multiset(),
    decreases p.len(),
{
    broadcast use vstd::multiset::group_multiset_axioms;
    broadcast use vstd::seq_lib::group_to_multiset_ensures;

    let n = p.len() as int;
    let moved = permuted(src, p);
    if n == 0 {
        assert(moved =~= src);
    } else {
        let r = p[n - 1] as int;
        assert(0 <= r < n);
        let q = Seq::new(
            (n - 1) as nat,
            |i: int|
                if p[i] > r {
                    (p[i] - 1) as usize
                } else {
                    p[i]
                },
        );
        let rest = src.remove(r);
        assert forall|i: int| 0 <= i < n - 1 implies p[i] != r && #[trigger] p[i] < n by {
            assert(p[i] != p[n - 1]);
        }
        assert forall|i: int| 0 <= i < q.len() implies #[trigger] q[i] < q.len() by {
            assert(p[i] != r && p[i] < n);
        }
        assert forall|i: int, j: int| 0 <= i < j < q.len() implies #[trigger] q[i] != #[trigger] q[j] by {
            assert(p[i] != p[j]);
            assert(p[i] != r && p[i] < n);
            assert(p[j] != r && p[j] < n);
        }
        assert(is_permutation(q));
        assert(permuted(rest, q) =~= moved.drop_last()) by {
            assert forall|i: int| 0 <= i < n - 1 implies permuted(rest, q)[i] == moved[i] by {
                assert(p[i] != r && p[i] < n);
            }
        }
        lemma_permuted_keeps_values(rest, q);
        assert(moved =~= moved.drop_last().push(src[r]));
        assert(moved.to_multiset() =~= moved.drop_last().to_multiset().insert(src[r]));
        assert(rest.to_multiset() =~= src.to_multiset().remove(src[r]));
        assert(src.to_multiset().count(src[r]) > 0);
        assert(moved.to_multiset() =~= src.to_multiset());
    }
}

/// A sequence with the same members as the rows `0..n`, each as often, is
/// a permutation.
pub proof fn lemma_rearranged_identity(p: Seq<usize>, n: nat)
    requires
        n <= usize::MAX,
        p.to_multiset() == identity(n).to_multiset(),
    ensures
        p.len() == n,
        is_permutation(p),
{
    broadcast use vstd::seq_lib::group_to_multiset_ensures;

    let id = identity(n);
    assert(id.no_duplicates());
    id.lemma_multiset_has_no_duplicates();
    p.lemma_multiset_has_no_duplicates_conv();
    assert(p.len() == p.to_multiset().len());
    assert(id.len() == id.to_multiset().len());
    assert forall|i: int| 0 <= i < p.len() implies #[trigger] p[i] < p.len() by {
        assert(p.to_multiset().count(p[i]) > 0);
        assert(id.contains(p[i]));
    }
}

/// Applying a permutation to a column sorted by it gives a column in
/// order.
pub proof fn lemma_permuted_sorted(keys: Seq<i64>, p: Seq<usize>)
    requires
        is_permutation(p),
        p.len() == keys.len(),
        sorted_by_key(p, keys),
    ensures
        non_decreasing(permuted(keys, p)),
{
}

/// The key of row `i`.
fn key_of(keys: &Vec<i64>, i: usize) -> (k: i64)
    requires
        i < keys@.len(),
    ensures
        k == keys@[i as int],
{
    keys[i]
}

/// `<[usize]>::sort_unstable_by_key` with the key of a row taken from `keys`:
/// the rows come out rearranged, none lost or added, in the order of their
/// keys; rows with equal keys come out in no particular order. `requires`
/// keeps out a row without a key, on which the lookup would panic.
#[verifier::external_body]
pub(crate) fn sort_rows_by_key(rows: &mut Vec<usize>, keys: &Vec<i64>)
    requires
        forall|i: int| 0 <= i < old(rows)@.len() ==> old(rows)@[i] < keys@.len(),
    ensures
        final(rows)@.to_multiset() == old(rows)@.to_multiset(),
        sorted_by_key(final(rows)@, keys@),
{
    rows.sort_unstable_by_key(|&i| key_of(keys, i));
}

/// The permutation that puts the rows of a timestamp column in order:
/// position `i` names the row that belongs at `i`. Rows with equal
/// timestamps may come in any order.
pub fn compute(timestamps: &Vec<i64>) -> (p: Vec<usize>)
    ensures
        p@.len() == timestamps@.len(),
        is_permutation(p@),
        sorted_by_key(p@, timestamps@),
{
    let n: usize = timestamps.len();
    let mut rows: Vec<usize> = Vec::new();
    let mut i: usize = 0;
    while i < n
        invariant
            i <= n,
            rows@ == identity(i as nat),
        decreases n - i,
    {
        rows.push(i);
        i = i + 1;
        assert(rows@ =~= identity(i as nat));
    }
    sort_rows_by_key(&mut rows, timestamps);
    proof {
        lemma_rearranged_identity(rows@, n as nat);
    }
    rows
}

/// How many rows are still to be placed.
pub open spec fn unplaced(done: Seq<bool>) -> nat
    decreases done.len(),
{
    if done.len() == 0 {
        0
    } else {
        unplaced(done.drop_last()) + if done.last() {
            0nat
        } else {
            1nat
        }
    }
}

proof fn lemma_place_one(done: Seq<bool>, k: int)
    requires
        0 <= k < done.len(),
        !done[k],
    ensures
        unplaced(done.update(k, true)) + 1 == unplaced(done),
    decreases done.len(),
{
    let after = done.update(k, true);
    if k == done.len() - 1 {
        assert(after.drop_last() =~= done.drop_last());
    } else {
        lemma_place_one(done.drop_last(), k);
        assert(after.drop_last() =~= done.drop_last().update(k, true));
    }
}

/// Between two cycles: every placed row holds its final value and has its
/// source and its target among the placed rows; every other row still
/// holds its first value. `pre` names, for each placed row, the row that is
/// sent to it.
#[verifier::opaque]
spec fn at_rest<T>(
    perm: Seq<usize>,
    orig: Seq<T>,
    data: Seq<T>,
    done: Seq<bool>,
    pre: Seq<int>,
) -> bool {
    let n = perm.len();
    &&& data.len() == n && done.len() == n && orig.len() == n && pre.len() == n
    &&& forall|p: int| 0 <= p < n ==> #[trigger] perm[p] < n
    &&& forall|p: int|
        0 <= p < n && #[trigger] done[p] ==> done[perm[p] as int] && data[p] == orig[perm[p] as int]
    &&& forall|q: int|
        0 <= q < n && #[trigger] done[q] ==> 0 <= pre[q] < n && done[pre[q]] && perm[pre[q]] == q
    &&& forall|p: int| 0 <= p < n && !#[trigger] done[p] ==> data[p] == orig[p]
}

/// Inside the cycle that began at row `i`, with row `j` reached: row `j`
/// holds the first value of row `i`, and the rest is as between cycles but
/// for the target of `j` and the source of `i`.
#[verifier::opaque]
spec fn in_cycle<T>(
    perm: Seq<usize>,
    orig: Seq<T>,
    data: Seq<T>,
    done: Seq<bool>,
    pre: Seq<int>,
    i: int,
    j: int,
) -> bool {
    let n = perm.len();
    &&& data.len() == n && done.len() == n && orig.len() == n && pre.len() == n
    &&& forall|p: int| 0 <= p < n ==> #[trigger] perm[p] < n
    &&& 0 <= i < n && 0 <= j < n
    &&& done[i] && done[j]
    &&& data[j] == orig[i]
    &&& forall|p: int|
        0 <= p < n && #[trigger] done[p] && p != j ==> done[perm[p] as int] && data[p]
            == orig[perm[p] as int]
    &&& forall|q: int|
        0 <= q < n && #[trigger] done[q] && q != i ==> 0 <= pre[q] < n && done[pre[q]] && pre[q]
            != j && perm[pre[q]] == q
    &&& forall|p: int| 0 <= p < n && !#[trigger] done[p] ==> data[p] == orig[p]
}

/// No two positions of `perm` name the same row.
#[verifier::opaque]
spec fn one_to_one(perm: Seq<usize>) -> bool {
    forall|a: int, b: int|
        0 <= a < perm.len() && 0 <= b < perm.len() && a != b ==> #[trigger] perm[a]
            != #[trigger] perm[b]
}

proof fn lemma_one_to_one(perm: Seq<usize>)
    requires
        is_permutation(perm),
    ensures
        one_to_one(perm),
{
    reveal(one_to_one);
    assert forall|a: int, b: int|
        0 <= a < perm.len() && 0 <= b < perm.len() && a != b implies #[trigger] perm[a]
        != #[trigger] perm[b] by {
        if a < b {
            assert(perm[a] != perm[b]);
        } else {
            assert(perm[b] != perm[a]);
        }
    }
}

proof fn lemma_one_to_one_at(perm: Seq<usize>, a: int, b: int)
    requires
        one_to_one(perm),
        0 <= a < perm.len(),
        0 <= b < perm.len(),
        a != b,
    ensures
        perm[a] != perm[b],
{
    reveal(one_to_one);
}

proof fn lemma_walk_begins<T>(perm: Seq<usize>, data: Seq<T>, done: Seq<bool>, pre: Seq<int>)
    requires
        is_permutation(perm),
        data.len() == perm.len(),
        done.len() == perm.len(),
        pre.len() == perm.len(),
        forall|p: int| 0 <= p < done.len() ==> !done[p],
    ensures
        at_rest(perm, data, data, done, pre),
{
    reveal(at_rest);
}

proof fn lemma_walk_ends<T>(
    perm: Seq<usize>,
    orig: Seq<T>,
    data: Seq<T>,
    done: Seq<bool>,
    pre: Seq<int>,
)
    requires
        at_rest(perm, orig, data, done, pre),
        forall|p: int| 0 <= p < perm.len() ==> done[p],
    ensures
        data == permuted(orig, perm),
{
    reveal(at_rest);
    assert forall|p: int| 0 <= p < perm.len() implies data[p] == #[trigger] permuted(
        orig,
        perm,
    )[p] by {
        assert(done[p]);
    }
    assert(data =~= permuted(orig, perm));
}

proof fn lemma_cycle_opens<T>(
    perm: Seq<usize>,
    orig: Seq<T>,
    data: Seq<T>,
    done: Seq<bool>,
    pre: Seq<int>,
    i: int,
)
    requires
        at_rest(perm, orig, data, done, pre),
        0 <= i < perm.len(),
        !done[i],
    ensures
        in_cycle(perm, orig, data, done.update(i, true), pre, i, i),
        perm[i] < perm.len(),
{
    reveal(at_rest);
    reveal(in_cycle);
    let n = perm.len();
    let after = done.update(i, true);
    assert forall|p: int| 0 <= p < n && #[trigger] after[p] && p != i implies after[perm[p] as int]
        && data[p] == orig[perm[p] as int] by {
        assert(done[p]);
    }
    assert forall|q: int| 0 <= q < n && #[trigger] after[q] && q != i implies 0 <= pre[q] < n
        && after[pre[q]] && pre[q] != i && perm[pre[q]] == q by {
        assert(done[q]);
    }
    assert forall|p: int| 0 <= p < n && !#[trigger] after[p] implies data[p] == orig[p] by {
        assert(!done[p]);
    }
}

proof fn lemma_cycle_steps<T>(
    perm: Seq<usize>,
    orig: Seq<T>,
    data: Seq<T>,
    done: Seq<bool>,
    pre: Seq<int>,
    i: int,
    j: int,
)
    requires
        one_to_one(perm),
        in_cycle(perm, orig, data, done, pre, i, j),
        0 <= j < perm.len(),
        perm[j] != i,
    ensures
        perm[j] < perm.len(),
        0 <= perm[j] < done.len(),
        !done[perm[j] as int],
        perm[perm[j] as int] < perm.len(),
        in_cycle(
            perm,
            orig,
            data.update(j, data[perm[j] as int]).update(perm[j] as int, data[j]),
            done.update(perm[j] as int, true),
            pre.update(perm[j] as int, j),
            i,
            perm[j] as int,
        ),
{
    reveal(in_cycle);
    let n = perm.len();
    let k = perm[j] as int;
    assert(0 <= k < n);
    if done[k] {
        let w = pre[k];
        assert(perm[w] == perm[j]);
        lemma_one_to_one_at(perm, w, j);
    }
    let data2 = data.update(j, data[k]).update(k, data[j]);
    let done2 = done.update(k, true);
    let pre2 = pre.update(k, j);
    assert forall|p: int| 0 <= p < n && #[trigger] done2[p] && p != k implies done2[perm[p] as int]
        && data2[p] == orig[perm[p] as int] by {
        assert(done[p]);
        if p != j {
            assert(done[perm[p] as int]);
        }
    }
    assert forall|q: int| 0 <= q < n && #[trigger] done2[q] && q != i implies 0 <= pre2[q] < n
        && done2[pre2[q]] && pre2[q] != k && perm[pre2[q]] == q by {
        if q != k {
            assert(done[q]);
        }
    }
    assert forall|p: int| 0 <= p < n && !#[trigger] done2[p] implies data2[p] == orig[p] by {
        assert(!done[p]);
    }
}

proof fn lemma_cycle_closes<T>(
    perm: Seq<usize>,
    orig: Seq<T>,
    data: Seq<T>,
    done: Seq<bool>,
    pre: Seq<int>,
    i: int,
    j: int,
)
    requires
        in_cycle(perm, orig, data, done, pre, i, j),
        0 <= j < perm.len(),
        perm[j] == i,
    ensures
        at_rest(perm, orig, data, done, pre.update(i, j)),
{
    reveal(at_rest);
    reveal(in_cycle);
    let n = perm.len();
    let pre2 = pre.update(i, j);
    assert forall|p: int| 0 <= p < n && #[trigger] done[p] implies done[perm[p] as int] && data[p]
        == orig[perm[p] as int] by {
    }
    assert forall|q: int| 0 <= q < n && #[trigger] done[q] implies 0 <= pre2[q] < n
        && done[pre2[q]] && perm[pre2[q]] == q by {
    }
}

/// Reorders `data` in place so that row `i` holds what row `perm[i]` held;
/// the column keeps its values, each as often as before. Each cycle of the permutation is walked once, one swap per step, and a
/// marker per row records which rows are in place.
pub fn apply<T: Copy>(perm: &[usize], data: &mut Vec<T>)
    requires
        is_permutation(perm@),
        perm@.len() == old(data)@.len(),
    ensures
        final(data)@ == permuted(old(data)@, perm@),
        final(data)@.to_multiset() == old(data)@.to_multiset(),
{
    proof {
        lemma_permuted_keeps_values(old(data)@, perm@);
    }
    let n: usize = perm.len();
    let ghost orig = data@;
    let ghost mut pre: Seq<int> = Seq::new(n as nat, |p: int| 0int);
    let mut done: Vec<bool> = Vec::new();
    let mut c: usize = 0;
    while c < n
        invariant
            c <= n,
            done@.len() == c,
            forall|p: int| 0 <= p < c ==> !done@[p],
        decreases n - c,
    {
        done.push(false);
        c = c + 1;
    }
    proof {
        lemma_walk_begins(perm@, data@, done@, pre);
        lemma_one_to_one(perm@);
    }
    let mut i: usize = 0;
    while i < n
        invariant
            i <= n,
            n == perm@.len(),
            n == done@.len(),
            n == data@.len(),
            n == pre.len(),
            one_to_one(perm@),
            at_rest(perm@, orig, data@, done@, pre),
            forall|p: int| 0 <= p < i ==> done@[p],
        decreases n - i,
    {
        if !done[i] {
            proof {
                lemma_cycle_opens(perm@, orig, data@, done@, pre, i as int);
            }
            done.set(i, true);
            let mut j: usize = i;
            let mut k: usize = perm[j];
            while k != i
                invariant
                    n == perm@.len(),
                    n == done@.len(),
                    n == data@.len(),
                    n == pre.len(),
                    i < n,
                    j < n,
                    k < n,
                    k == perm@[j as int],
                    done@[i as int],
                    one_to_one(perm@),
                    in_cycle(perm@, orig, data@, done@, pre, i as int, j as int),
                    forall|p: int| 0 <= p < i ==> done@[p],
                decreases unplaced(done@),
            {
                proof {
                    lemma_cycle_steps(perm@, orig, data@, done@, pre, i as int, j as int);
                    lemma_place_one(done@, k as int);
                }
                let a: T = data[j];
                let b: T = data[k];
                data.set(j, b);
                data.set(k, a);
                done.set(k, true);
                proof {
                    pre = pre.update(k as int, j as int);
                }
                j = k;
                k = perm[j];
            }
            proof {
                lemma_cycle_closes(perm@, orig, data@, done@, pre, i as int, j as int);
                pre = pre.update(i as int, j as int);
            }
        }
        i = i + 1;
    }
    proof {
        lemma_walk_ends(perm@, orig, data@, done@, pre);
    }
}

} // verus!
