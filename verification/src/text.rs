//! The order in which strings are sorted: code point by code point, a
//! proper prefix before the longer string.

use vstd::prelude::*;
use vstd::relations::{sorted_by, total_ordering};
use vstd::std_specs::iter::IteratorSpec;

verus! {

/// `a` comes before `b`, or equals it.
pub open spec fn str_le(a: Seq<char>, b: Seq<char>) -> bool
    decreases a.len(),
{
    if a.len() == 0 {
        true
    } else if b.len() == 0 {
        false
    } else if a[0] == b[0] {
        str_le(a.drop_first(), b.drop_first())
    } else {
        (a[0] as u32) < (b[0] as u32)
    }
}

/// `a` comes strictly before `b`.
pub open spec fn str_lt(a: Seq<char>, b: Seq<char>) -> bool {
    str_le(a, b) && a != b
}

/// The order as a relation, for the lemmas of vstd on sorted sequences.
pub open spec fn str_order() -> spec_fn(Seq<char>, Seq<char>) -> bool {
    |a: Seq<char>, b: Seq<char>| str_le(a, b)
}

/// `list`, with `s` at its end unless the list holds it already.
pub open spec fn with_text(list: Seq<Seq<char>>, s: Seq<char>) -> Seq<Seq<char>> {
    if list.contains(s) {
        list
    } else {
        list.push(s)
    }
}

/// `list` after the strings `others` have arrived one after another, each
/// going to the end unless the list holds it already.
pub open spec fn with_texts(list: Seq<Seq<char>>, others: Seq<Seq<char>>) -> Seq<Seq<char>>
    decreases others.len(),
{
    if others.len() == 0 {
        list
    } else {
        with_text(with_texts(list, others.drop_last()), others.last())
    }
}

/// A list that strings have arrived at holds those it held and those that
/// arrived, and no others.
pub proof fn lemma_with_texts_holds(list: Seq<Seq<char>>, others: Seq<Seq<char>>, x: Seq<char>)
    ensures
        with_texts(list, others).contains(x) <==> list.contains(x) || others.contains(x),
    decreases others.len(),
{
    if others.len() > 0 {
        let front = others.drop_last();
        lemma_with_texts_holds(list, front, x);
        let before = with_texts(list, front);
        if others.contains(x) {
            let i = choose|i: int| 0 <= i < others.len() && others[i] == x;
            if i < front.len() {
                assert(front[i] == x);
            }
        }
        if front.contains(x) {
            let i = choose|i: int| 0 <= i < front.len() && front[i] == x;
            assert(others[i] == x);
        }
        if x == others.last() {
            assert(others[others.len() - 1] == x);
        }
        if !before.contains(others.last()) {
            let grown = before.push(others.last());
            if before.contains(x) {
                let i = choose|i: int| 0 <= i < before.len() && before[i] == x;
                assert(grown[i] == x);
            }
            if grown.contains(x) {
                let i = choose|i: int| 0 <= i < grown.len() && grown[i] == x;
                if i < before.len() {
                    assert(before[i] == x);
                }
            }
            if x == others.last() {
                assert(grown[before.len() as int] == x);
            }
        }
    }
}

/// The strings of `list` in their order, each only where it first occurs.
pub open spec fn distinct(list: Seq<Seq<char>>) -> Seq<Seq<char>> {
    with_texts(Seq::empty(), list)
}

/// Each string is followed only by strings that are not before it.
pub open spec fn ascending(s: Seq<Seq<char>>) -> bool {
    forall|i: int, j: int| 0 <= i < j < s.len() ==> str_le(#[trigger] s[i], #[trigger] s[j])
}

/// Each string is followed only by strings that are after it.
pub open spec fn strictly_ascending(s: Seq<Seq<char>>) -> bool {
    forall|i: int, j: int| 0 <= i < j < s.len() ==> str_lt(#[trigger] s[i], #[trigger] s[j])
}

/// A string is not after itself.
pub proof fn lemma_str_le_reflexive(a: Seq<char>)
    ensures
        str_le(a, a),
    decreases a.len(),
{
    if a.len() > 0 {
        lemma_str_le_reflexive(a.drop_first());
    }
}

/// Two strings that are each not after the other are equal.
pub proof fn lemma_str_le_antisymmetric(a: Seq<char>, b: Seq<char>)
    requires
        str_le(a, b),
        str_le(b, a),
    ensures
        a == b,
    decreases a.len(),
{
    if a.len() == 0 {
        assert(b.len() == 0);
        assert(a =~= b);
    } else {
        assert(b.len() > 0);
        if a[0] == b[0] {
            lemma_str_le_antisymmetric(a.drop_first(), b.drop_first());
            assert(a =~= seq![a[0]] + a.drop_first());
            assert(b =~= seq![b[0]] + b.drop_first());
        }
    }
}

/// The order of strings carries over a string in between.
pub proof fn lemma_str_le_transitive(a: Seq<char>, b: Seq<char>, c: Seq<char>)
    requires
        str_le(a, b),
        str_le(b, c),
    ensures
        str_le(a, c),
    decreases a.len(),
{
    if a.len() > 0 {
        assert(b.len() > 0);
        assert(c.len() > 0);
        if a[0] == b[0] && b[0] == c[0] {
            lemma_str_le_transitive(a.drop_first(), b.drop_first(), c.drop_first());
        }
    }
}

/// Of two strings, one is not after the other.
pub proof fn lemma_str_le_total(a: Seq<char>, b: Seq<char>)
    ensures
        str_le(a, b) || str_le(b, a),
    decreases a.len(),
{
    if a.len() > 0 && b.len() > 0 {
        if a[0] == b[0] {
            lemma_str_le_total(a.drop_first(), b.drop_first());
        } else {
            let x: u32 = a[0] as u32;
            let y: u32 = b[0] as u32;
            vstd::utf8::char_u32_cast(a[0], x);
            vstd::utf8::char_u32_cast(b[0], y);
            assert(x != y);
        }
    }
}

/// The order of strings is a total order.
pub proof fn lemma_str_order_total()
    ensures
        total_ordering(str_order()),
{
    let r = str_order();
    assert forall|x: Seq<char>| #[trigger] r(x, x) by {
        lemma_str_le_reflexive(x);
    }
    assert forall|x: Seq<char>, y: Seq<char>| #[trigger] r(x, y) && #[trigger] r(y, x) implies x
        == y by {
        lemma_str_le_antisymmetric(x, y);
    }
    assert forall|x: Seq<char>, y: Seq<char>, z: Seq<char>| #[trigger] r(x, y) && #[trigger] r(
        y,
        z,
    ) implies r(x, z) by {
        lemma_str_le_transitive(x, y, z);
    }
    assert forall|x: Seq<char>, y: Seq<char>| #[trigger] r(x, y) || #[trigger] r(y, x) by {
        lemma_str_le_total(x, y);
    }
}

/// An ascending sequence without repeats is strictly ascending.
pub proof fn lemma_ascending_distinct(s: Seq<Seq<char>>)
    requires
        ascending(s),
        s.no_duplicates(),
    ensures
        strictly_ascending(s),
{
}

/// A strictly ascending sequence has no repeats.
pub proof fn lemma_strictly_ascending_distinct(s: Seq<Seq<char>>)
    requires
        strictly_ascending(s),
    ensures
        s.no_duplicates(),
        ascending(s),
{
    assert forall|i: int, j: int| 0 <= i < s.len() && 0 <= j < s.len() && i != j implies s[i]
        != s[j] by {
        if i < j {
            assert(str_lt(s[i], s[j]));
        } else {
            assert(str_lt(s[j], s[i]));
        }
    }
}

/// In a strictly ascending sequence the order of two positions is the
/// order of the strings found there.
pub proof fn lemma_strictly_ascending_order(s: Seq<Seq<char>>, i: int, j: int)
    requires
        strictly_ascending(s),
        0 <= i < s.len(),
        0 <= j < s.len(),
    ensures
        i < j <==> str_lt(s[i], s[j]),
{
    if i < j {
        assert(str_lt(s[i], s[j]));
    } else if j < i {
        assert(str_lt(s[j], s[i]));
        if str_lt(s[i], s[j]) {
            lemma_str_le_antisymmetric(s[i], s[j]);
        }
    }
}

/// Two ascending sequences with the same strings, each as often, are equal.
pub proof fn lemma_ascending_unique(x: Seq<Seq<char>>, y: Seq<Seq<char>>)
    requires
        ascending(x),
        ascending(y),
        x.to_multiset() == y.to_multiset(),
    ensures
        x == y,
{
    lemma_str_order_total();
    assert(sorted_by(x, str_order()));
    assert(sorted_by(y, str_order()));
    vstd::seq_lib::lemma_sorted_unique(x, y, str_order());
}

/// A sequence in which each string comes before the next is strictly
/// ascending throughout.
pub proof fn lemma_stepwise_ascending(s: Seq<Seq<char>>, i: int, j: int)
    requires
        forall|k: int| 0 <= k < s.len() - 1 ==> str_lt(#[trigger] s[k], s[k + 1]),
        0 <= i < j < s.len(),
    ensures
        str_lt(s[i], s[j]),
    decreases j - i,
{
    assert(str_lt(s[j - 1], s[j - 1 + 1]));
    if i < j - 1 {
        lemma_stepwise_ascending(s, i, j - 1);
        lemma_str_le_transitive(s[i], s[j - 1], s[j]);
        if s[i] == s[j] {
            lemma_str_le_antisymmetric(s[j - 1], s[j]);
        }
    }
}

/// Whether `a` comes strictly before `b`.
pub fn text_before(a: &str, b: &str) -> (r: bool)
    ensures
        r == str_lt(a@, b@),
{
    let mut x = a.chars();
    let mut y = b.chars();
    loop
        invariant
            str_lt(a@, b@) == str_lt(x.remaining(), y.remaining()),
            x.decrease() is Some,
        decreases x.decrease()->0,
    {
        let ghost rest_a = x.remaining();
        let ghost rest_b = y.remaining();
        let c = x.next();
        let d = y.next();
        match (c, d) {
            (None, None) => {
                assert(rest_a =~= rest_b);
                return false;
            },
            (None, Some(_)) => {
                return true;
            },
            (Some(_), None) => {
                return false;
            },
            (Some(p), Some(q)) => {
                if p != q {
                    return (p as u32) < (q as u32);
                }
                proof {
                    assert(rest_a =~= seq![p] + rest_a.drop_first());
                    assert(rest_b =~= seq![q] + rest_b.drop_first());
                }
            },
        }
    }
}

} // verus!
