//! The text index of a segment: one line for each part of the segment
//! file, with the offsets between which the part lies.

use vstd::prelude::*;
use vstd::string::StringExecFns;
use vstd::utf8::encode_utf8;
use crate::ordered_set::{set_at, set_insert_full, set_items, set_len, set_new, set_sort};
use crate::segment::texts;
use crate::text::{
    ascending, distinct, lemma_ascending_unique, lemma_str_order_total, str_order,
};
use crate::wire::put_bytes;

verus! {

/// The first line of the index: the format of the index, the largest
/// size of a segment file, and the number of segment files; and the start
/// of the line of the timestamps, up to the offset at which they end.
pub const INDEX_HEAD: &'static str = "v1,2147483647,1\n__time,0,0,";

/// The name under which the tables of names, the time range and the kind
/// of the bitmaps are indexed.
pub const INDEX_PART: &'static str = "index.drd";

/// The name under which the description of the segment is indexed.
pub const META_PART: &'static str = "metadata.drd";

/// One decimal digit.
pub open spec fn digit(d: nat) -> Seq<char> {
    if d == 0 {
        "0"@
    } else if d == 1 {
        "1"@
    } else if d == 2 {
        "2"@
    } else if d == 3 {
        "3"@
    } else if d == 4 {
        "4"@
    } else if d == 5 {
        "5"@
    } else if d == 6 {
        "6"@
    } else if d == 7 {
        "7"@
    } else if d == 8 {
        "8"@
    } else {
        "9"@
    }
}

/// `n` in decimal digits.
pub open spec fn decimal_text(n: nat) -> Seq<char>
    decreases n,
{
    if n < 10 {
        digit(n)
    } else {
        decimal_text(n / 10) + digit(n % 10)
    }
}

/// The line of one part: its name, the number of the segment file, and the
/// offsets at which the part starts and ends.
pub open spec fn span_line(name: Seq<char>, start: nat, end: nat) -> Seq<char> {
    name + ",0,"@ + decimal_text(start) + ","@ + decimal_text(end) + "\n"@
}

/// The lines of the columns `from..to` of `order`, of which column `k` ends
/// at `ends[k]` and starts where the column before it ends.
pub open spec fn span_lines(order: Seq<Seq<char>>, ends: Seq<nat>, from: int, to: int) -> Seq<
    Seq<char>,
> {
    Seq::new(
        if to > from {
            (to - from) as nat
        } else {
            0
        },
        |i: int| span_line(order[from + i], ends[from + i - 1], ends[from + i]),
    )
}

/// The pieces of the index, in the order in which they are written: the
/// head with the line of the timestamps, which are column 0; the lines of
/// the metrics, which are the columns `1..=metrics`; and then, in the order
/// of strings and each once, the lines of the other columns, of the part
/// that ends at `body_end` and of the part that ends at `total`.
pub open spec fn index_pieces(
    order: Seq<Seq<char>>,
    ends: Seq<nat>,
    metrics: int,
    body_end: nat,
    total: nat,
) -> Seq<Seq<char>> {
    let last = ends[order.len() - 1];
    (seq![INDEX_HEAD@ + decimal_text(ends[0]) + "\n"@] + span_lines(order, ends, 1, 1 + metrics))
        + distinct(
        span_lines(order, ends, 1 + metrics, order.len() as int) + seq![
            span_line(INDEX_PART@, last, body_end),
            span_line(META_PART@, body_end, total),
        ],
    ).sort_by(str_order())
}

/// The pieces one after another, each in UTF-8.
pub open spec fn pieces_bytes(pieces: Seq<Seq<char>>) -> Seq<u8>
    decreases pieces.len(),
{
    if pieces.len() == 0 {
        Seq::<u8>::empty()
    } else {
        pieces_bytes(pieces.drop_last()) + encode_utf8(pieces.last())
    }
}

proof fn lemma_pieces_push(pieces: Seq<Seq<char>>, piece: Seq<char>)
    ensures
        pieces_bytes(pieces.push(piece)) == pieces_bytes(pieces) + encode_utf8(piece),
{
    assert(pieces.push(piece).drop_last() =~= pieces);
}

fn digit_str(d: usize) -> (s: &'static str)
    requires
        d < 10,
    ensures
        s@ == digit(d as nat),
{
    if d == 0 {
        "0"
    } else if d == 1 {
        "1"
    } else if d == 2 {
        "2"
    } else if d == 3 {
        "3"
    } else if d == 4 {
        "4"
    } else if d == 5 {
        "5"
    } else if d == 6 {
        "6"
    } else if d == 7 {
        "7"
    } else if d == 8 {
        "8"
    } else {
        "9"
    }
}

/// Appends `n` in decimal digits.
pub fn push_decimal(text: &mut String, n: usize)
    ensures
        final(text)@ == old(text)@ + decimal_text(n as nat),
    decreases n,
{
    if n >= 10 {
        push_decimal(text, n / 10);
    }
    text.append(digit_str(n % 10));
    assert(text@ =~= old(text)@ + decimal_text(n as nat));
}

/// The line of one part of the segment file.
pub fn make_span_line(name: &str, start: usize, end: usize) -> (line: String)
    ensures
        line@ == span_line(name@, start as nat, end as nat),
{
    let mut line = String::new();
    line.append(name);
    line.append(",0,");
    push_decimal(&mut line, start);
    line.append(",");
    push_decimal(&mut line, end);
    line.append("\n");
    assert(line@ =~= span_line(name@, start as nat, end as nat));
    line
}

/// The offsets as numbers.
pub open spec fn offsets_of(ends: Seq<usize>) -> Seq<nat> {
    Seq::new(ends.len(), |k: int| ends[k] as nat)
}

/// The text index of a segment whose columns `order` end at `ends`.
pub fn index_text(
    order: &Vec<String>,
    ends: &Vec<usize>,
    metrics: usize,
    body_end: usize,
    total: usize,
) -> (r: Vec<u8>)
    requires
        order@.len() == ends@.len(),
        metrics < order@.len(),
    ensures
        r@ == pieces_bytes(
            index_pieces(
                texts(order@),
                offsets_of(ends@),
                metrics as int,
                body_end as nat,
                total as nat,
            ),
        ),
{
    let ghost names = texts(order@);
    let ghost spans = offsets_of(ends@);
    let n: usize = order.len();
    let mut out: Vec<u8> = Vec::new();
    let mut head = String::new();
    head.append(INDEX_HEAD);
    push_decimal(&mut head, ends[0]);
    head.append("\n");
    let ghost first = INDEX_HEAD@ + decimal_text(spans[0]) + "\n"@;
    assert(head@ =~= first);
    put_bytes(&mut out, head.as_str().as_bytes());
    let ghost metric_lines = span_lines(names, spans, 1, 1 + metrics);
    proof {
        lemma_pieces_push(Seq::empty(), first);
        assert(pieces_bytes(Seq::<Seq<char>>::empty()) =~= Seq::<u8>::empty());
        assert(Seq::<Seq<char>>::empty().push(first) =~= seq![first] + metric_lines.take(0));
        assert(out@ =~= pieces_bytes(seq![first] + metric_lines.take(0)));
    }
    let mut k: usize = 1;
    while k < 1 + metrics
        invariant
            1 <= k <= 1 + metrics,
            metrics < n,
            n == order@.len(),
            n == ends@.len(),
            names == texts(order@),
            spans == offsets_of(ends@),
            metric_lines == span_lines(names, spans, 1, 1 + metrics),
            out@ == pieces_bytes(seq![first] + metric_lines.take(k - 1)),
        decreases 1 + metrics - k,
    {
        let line = make_span_line(order[k].as_str(), ends[k - 1], ends[k]);
        proof {
            assert(line@ == metric_lines[k - 1]);
            lemma_pieces_push(seq![first] + metric_lines.take(k - 1), line@);
            assert((seq![first] + metric_lines.take(k - 1)).push(line@) =~= seq![first]
                + metric_lines.take(k as int));
        }
        put_bytes(&mut out, line.as_str().as_bytes());
        k = k + 1;
    }
    assert(metric_lines.take(metrics as int) =~= metric_lines);
    let ghost others = span_lines(names, spans, 1 + metrics, n as int);
    let ghost closing = seq![
        span_line(INDEX_PART@, spans[n - 1], body_end as nat),
        span_line(META_PART@, body_end as nat, total as nat),
    ];
    let ghost listed = others + closing;
    let mut lines = set_new();
    assert(distinct(listed.take(0)) =~= set_items(lines));
    while k < n
        invariant
            1 + metrics <= k <= n,
            n == order@.len(),
            n == ends@.len(),
            names == texts(order@),
            spans == offsets_of(ends@),
            others == span_lines(names, spans, 1 + metrics, n as int),
            listed == others + closing,
            set_items(lines) == distinct(listed.take(k - 1 - metrics)),
        decreases n - k,
    {
        let line = make_span_line(order[k].as_str(), ends[k - 1], ends[k]);
        proof {
            let at = k - 1 - metrics;
            assert(line@ == others[at]);
            assert(listed.take(at + 1).drop_last() =~= listed.take(at));
            assert(listed.take(at + 1).last() == line@);
        }
        let _ = set_insert_full(&mut lines, line);
        k = k + 1;
    }
    let ghost m = others.len() as int;
    let index_line = make_span_line(INDEX_PART, ends[n - 1], body_end);
    proof {
        assert(listed.take(m + 1).drop_last() =~= listed.take(m));
        assert(listed.take(m + 1).last() == index_line@);
    }
    let _ = set_insert_full(&mut lines, index_line);
    assert(set_items(lines) == distinct(listed.take(m + 1)));
    let meta_line = make_span_line(META_PART, body_end, total);
    proof {
        assert(listed.take(m + 2).drop_last() =~= listed.take(m + 1));
        assert(listed.take(m + 2).last() == meta_line@);
        assert(listed.take(m + 2) =~= listed);
    }
    let _ = set_insert_full(&mut lines, meta_line);
    assert(set_items(lines) == distinct(listed));
    let ghost unsorted = set_items(lines);
    set_sort(&mut lines);
    let ghost sorted = distinct(listed).sort_by(str_order());
    proof {
        lemma_str_order_total();
        distinct(listed).lemma_sort_by_ensures(str_order());
        assert(ascending(sorted)) by {
            assert forall|i: int, j: int| 0 <= i < j < sorted.len() implies crate::text::str_le(
                #[trigger] sorted[i],
                #[trigger] sorted[j],
            ) by {
                assert(str_order()(sorted[i], sorted[j]));
            }
        }
        assert(unsorted.to_multiset() =~= sorted.to_multiset());
        assert(set_items(lines).to_multiset() =~= sorted.to_multiset());
        lemma_ascending_unique(set_items(lines), sorted);
    }
    let ghost before = seq![first] + metric_lines;
    let count: usize = set_len(&lines);
    let mut i: usize = 0;
    proof {
        assert(before + sorted.take(0) =~= before);
    }
    while i < count
        invariant
            i <= count,
            count == sorted.len(),
            set_items(lines) == sorted,
            out@ == pieces_bytes(before + sorted.take(i as int)),
        decreases count - i,
    {
        let line = set_at(&lines, i);
        proof {
            lemma_pieces_push(before + sorted.take(i as int), line@);
            assert((before + sorted.take(i as int)).push(line@) =~= before + sorted.take(i + 1));
        }
        put_bytes(&mut out, line.as_str().as_bytes());
        i = i + 1;
    }
    assert(sorted.take(count as int) =~= sorted);
    out
}

} // verus!
