//! Orders used to rank results: strings by their bytes (the order of `str`),
//! term statistics by frequency then term, scored documents by score then
//! id, and sets of ids kept in increasing order.

use vstd::prelude::*;
use vstd::utf8::{encode_utf8, encode_utf8_decode_utf8};

verus! {

/// Lexicographic order of byte strings, the order of `str` and `String`.
pub open spec fn bytes_less(a: Seq<u8>, b: Seq<u8>) -> bool
    decreases a.len(),
{
    if a.len() == 0 {
        b.len() > 0
    } else if b.len() == 0 {
        false
    } else if a[0] != b[0] {
        a[0] < b[0]
    } else {
        bytes_less(a.drop_first(), b.drop_first())
    }
}

/// `bytes_less` is irreflexive.
pub proof fn lemma_bytes_less_irreflexive(a: Seq<u8>)
    ensures
        !bytes_less(a, a),
    decreases a.len(),
{
    if a.len() > 0 {
        lemma_bytes_less_irreflexive(a.drop_first());
    }
}

/// `bytes_less` relates any two different byte strings one way.
pub proof fn lemma_bytes_less_total(a: Seq<u8>, b: Seq<u8>)
    requires
        a != b,
    ensures
        bytes_less(a, b) || bytes_less(b, a),
    decreases a.len(),
{
    if a.len() > 0 && b.len() > 0 && a[0] == b[0] {
        if a.drop_first() == b.drop_first() {
            assert(a =~= seq![a[0]] + a.drop_first());
            assert(b =~= seq![b[0]] + b.drop_first());
        }
        lemma_bytes_less_total(a.drop_first(), b.drop_first());
    } else if a.len() == 0 && b.len() == 0 {
        assert(a =~= b);
    }
}

/// `bytes_less` is transitive.
pub proof fn lemma_bytes_less_transitive(a: Seq<u8>, b: Seq<u8>, c: Seq<u8>)
    requires
        bytes_less(a, b),
        bytes_less(b, c),
    ensures
        bytes_less(a, c),
    decreases a.len(),
{
    if a.len() > 0 && b.len() > 0 && c.len() > 0 && a[0] == b[0] && b[0] == c[0] {
        lemma_bytes_less_transitive(a.drop_first(), b.drop_first(), c.drop_first());
    }
}

/// Different strings have different UTF-8 encodings.
pub proof fn lemma_encode_injective(a: Seq<char>, b: Seq<char>)
    requires
        a != b,
    ensures
        encode_utf8(a) != encode_utf8(b),
{
    encode_utf8_decode_utf8(a);
    encode_utf8_decode_utf8(b);
}

/// The order of strings, by their UTF-8 bytes.
pub open spec fn str_less(a: Seq<char>, b: Seq<char>) -> bool {
    bytes_less(encode_utf8(a), encode_utf8(b))
}

/// Whether `a` is before `b` in the string order (`a < b` on `String`).
pub fn string_less(a: &String, b: &String) -> (r: bool)
    ensures
        r == str_less(a@, b@),
{
    let x = a.as_str().as_bytes();
    let y = b.as_str().as_bytes();
    let mut i: usize = 0;
    proof {
        assert(x@.skip(0) =~= x@);
        assert(y@.skip(0) =~= y@);
    }
    while i < x.len() && i < y.len() && x[i] == y[i]
        invariant
            i <= x@.len(),
            i <= y@.len(),
            x@ == encode_utf8(a@),
            y@ == encode_utf8(b@),
            bytes_less(x@, y@) == bytes_less(x@.skip(i as int), y@.skip(i as int)),
        decreases x@.len() - i,
    {
        proof {
            let xs = x@.skip(i as int);
            let ys = y@.skip(i as int);
            assert(xs.drop_first() =~= x@.skip(i + 1));
            assert(ys.drop_first() =~= y@.skip(i + 1));
        }
        i = i + 1;
    }
    if i < x.len() && i < y.len() {
        x[i] < y[i]
    } else {
        i == x.len() && i < y.len()
    }
}

/// Term statistics order: higher document frequency first, then the term.
pub open spec fn term_before(a: (Seq<char>, usize), b: (Seq<char>, usize)) -> bool {
    a.1 > b.1 || (a.1 == b.1 && str_less(a.0, b.0))
}

/// `term_before` is a strict total order on entries with different terms.
pub proof fn lemma_term_order()
    ensures
        forall|a: (Seq<char>, usize)| !#[trigger] term_before(a, a),
        forall|a: (Seq<char>, usize), b: (Seq<char>, usize)|
            a.0 != b.0 ==> #[trigger] term_before(a, b) || #[trigger] term_before(b, a),
        forall|a: (Seq<char>, usize), b: (Seq<char>, usize), c: (Seq<char>, usize)|
            #[trigger] term_before(a, b) && #[trigger] term_before(b, c) ==> term_before(a, c),
{
    assert forall|a: (Seq<char>, usize)| !#[trigger] term_before(a, a) by {
        lemma_bytes_less_irreflexive(encode_utf8(a.0));
    }
    assert forall|a: (Seq<char>, usize), b: (Seq<char>, usize)|
        a.0 != b.0 implies #[trigger] term_before(a, b) || #[trigger] term_before(b, a) by {
        lemma_encode_injective(a.0, b.0);
        lemma_bytes_less_total(encode_utf8(a.0), encode_utf8(b.0));
    }
    assert forall|a: (Seq<char>, usize), b: (Seq<char>, usize), c: (Seq<char>, usize)|
        #[trigger] term_before(a, b) && #[trigger] term_before(b, c) implies term_before(a, c) by {
        if a.1 == b.1 && b.1 == c.1 {
            lemma_bytes_less_transitive(encode_utf8(a.0), encode_utf8(b.0), encode_utf8(c.0));
        }
    }
}

/// A term statistic seen as plain values.
pub open spec fn stat_view(p: (String, usize)) -> (Seq<char>, usize) {
    (p.0@, p.1)
}

/// Term statistics seen as plain values.
pub open spec fn stat_views(s: Seq<(String, usize)>) -> Seq<(Seq<char>, usize)> {
    s.map_values(|p: (String, usize)| stat_view(p))
}

/// Whether `a` comes before `b` among term statistics.
pub fn stat_before(a: &(String, usize), b: &(String, usize)) -> (r: bool)
    ensures
        r == term_before(stat_view(*a), stat_view(*b)),
{
    a.1 > b.1 || (a.1 == b.1 && string_less(&a.0, &b.0))
}

/// Sorts term statistics with distinct terms into `term_before` order.
pub fn sort_term_stats(items: &Vec<(String, usize)>) -> (r: Vec<(String, usize)>)
    requires
        forall|a: int, b: int|
            0 <= a < items@.len() && 0 <= b < items@.len() && a != b ==> items@[a].0@
                != items@[b].0@,
    ensures
        r@.len() == items@.len(),
        forall|a: int, b: int|
            0 <= a < b < r@.len() ==> term_before(stat_view(r@[a]), stat_view(r@[b])),
        forall|a: int| 0 <= a < r@.len() ==> stat_views(items@).contains(#[trigger] stat_view(r@[a])),
        forall|c: int| 0 <= c < items@.len() ==> stat_views(r@).contains(#[trigger] stat_view(items@[c])),
{
    proof {
        lemma_term_order();
    }
    let ghost iv = stat_views(items@);
    let mut sorted: Vec<(String, usize)> = Vec::new();
    let mut i: usize = 0;
    while i < items.len()
        invariant
            iv == stat_views(items@),
            i <= items@.len(),
            sorted@.len() == i,
            forall|a: int, b: int|
                0 <= a < items@.len() && 0 <= b < items@.len() && a != b ==> items@[a].0@
                    != items@[b].0@,
            forall|a: int, b: int|
                0 <= a < b < sorted@.len() ==> term_before(stat_view(sorted@[a]), stat_view(sorted@[b])),
            forall|a: int| 0 <= a < sorted@.len() ==> iv.take(i as int).contains(#[trigger] stat_view(sorted@[a])),
            forall|c: int| 0 <= c < i ==> stat_views(sorted@).contains(#[trigger] stat_view(items@[c])),
        decreases items@.len() - i,
    {
        let x = (items[i].0.clone(), items[i].1);
        assert(stat_view(x) == iv[i as int]);
        let mut p: usize = 0;
        while p < sorted.len() && !stat_before(&x, &sorted[p])
            invariant
                p <= sorted@.len(),
                forall|a: int| 0 <= a < p ==> !term_before(stat_view(x), #[trigger] stat_view(sorted@[a])),
            decreases sorted@.len() - p,
        {
            p = p + 1;
        }
        let ghost before = sorted@;
        proof {
            lemma_term_order();
            assert forall|a: int| 0 <= a < p implies term_before(#[trigger] stat_view(before[a]), stat_view(x)) by {
                assert(iv.take(i as int).contains(stat_view(before[a])));
                let c = choose|c: int| 0 <= c < i && iv.take(i as int)[c] == stat_view(before[a]);
                assert(iv[c] == stat_view(items@[c]));
                assert(items@[c].0@ != items@[i as int].0@);
                assert(stat_view(before[a]).0 != stat_view(x).0);
                assert(!term_before(stat_view(x), stat_view(before[a])));
                assert(term_before(stat_view(before[a]), stat_view(x)) || term_before(stat_view(x), stat_view(before[a])));
            }
            assert(p < before.len() ==> term_before(stat_view(x), stat_view(before[p as int])));
        }
        sorted.insert(p, x);
        proof {
            assert(sorted@ == before.insert(p as int, x));
            assert forall|a: int, b: int| 0 <= a < b < sorted@.len() implies term_before(
                stat_view(sorted@[a]),
                stat_view(sorted@[b]),
            ) by {
                if b < p {
                    assert(sorted@[a] == before[a] && sorted@[b] == before[b]);
                } else if b == p {
                    assert(sorted@[a] == before[a]);
                } else if a == p {
                    assert(sorted@[b] == before[b - 1]);
                    assert(sorted@[a] == x);
                    if b - 1 > p {
                        assert(term_before(stat_view(before[p as int]), stat_view(before[b - 1])));
                        assert(term_before(stat_view(x), stat_view(before[p as int])));
                    }
                } else if a < p {
                    assert(sorted@[a] == before[a] && sorted@[b] == before[b - 1]);
                } else {
                    assert(sorted@[a] == before[a - 1] && sorted@[b] == before[b - 1]);
                }
            }
            assert(iv.take(i + 1) =~= iv.take(i as int).push(iv[i as int]));
            assert forall|a: int| 0 <= a < sorted@.len() implies iv.take(i + 1).contains(
                #[trigger] stat_view(sorted@[a]),
            ) by {
                if a < p {
                    assert(sorted@[a] == before[a]);
                    assert(iv.take(i as int).contains(stat_view(before[a])));
                    let c = choose|c: int| 0 <= c < i && iv.take(i as int)[c] == stat_view(before[a]);
                    assert(iv.take(i + 1)[c] == stat_view(before[a]));
                } else if a == p {
                    assert(iv.take(i + 1)[i as int] == stat_view(x));
                } else {
                    assert(sorted@[a] == before[a - 1]);
                    assert(iv.take(i as int).contains(stat_view(before[a - 1])));
                    let c = choose|c: int| 0 <= c < i && iv.take(i as int)[c] == stat_view(before[a - 1]);
                    assert(iv.take(i + 1)[c] == stat_view(before[a - 1]));
                }
            }
            assert forall|c: int| 0 <= c < i + 1 implies stat_views(sorted@).contains(
                #[trigger] stat_view(items@[c]),
            ) by {
                if c == i {
                    assert(stat_views(sorted@)[p as int] == stat_view(items@[c]));
                } else {
                    assert(stat_views(before).contains(stat_view(items@[c])));
                    let a = choose|a: int| 0 <= a < before.len() && stat_views(before)[a] == stat_view(items@[c]);
                    if a < p {
                        assert(stat_views(sorted@)[a] == stat_view(items@[c]));
                    } else {
                        assert(stat_views(sorted@)[a + 1] == stat_view(items@[c]));
                    }
                }
            }
        }
        i = i + 1;
    }
    proof {
        assert(iv.take(items@.len() as int) =~= iv);
    }
    sorted
}

/// Ranking order of scored documents: higher score key first, then lower id.
pub open spec fn ranks_before(a: (u64, u64), b: (u64, u64)) -> bool {
    a.0 > b.0 || (a.0 == b.0 && a.1 < b.1)
}

/// The ids increase strictly along `s`.
pub open spec fn increasing(s: Seq<u64>) -> bool {
    forall|a: int, b: int| 0 <= a < b < s.len() ==> s[a] < s[b]
}

/// Adds `x` to the increasing ids `v`, where it belongs, unless it is there.
pub fn insert_sorted(v: &mut Vec<u64>, x: u64)
    requires
        increasing(old(v)@),
    ensures
        increasing(final(v)@),
        forall|y: u64| final(v)@.contains(y) <==> (old(v)@.contains(y) || y == x),
        old(v)@.contains(x) ==> final(v)@ == old(v)@,
        !old(v)@.contains(x) ==> final(v)@.len() == old(v)@.len() + 1,
{
    let ghost before = v@;
    let mut pos: usize = 0;
    while pos < v.len() && v[pos] < x
        invariant
            v@ == before,
            pos <= v@.len(),
            forall|a: int| 0 <= a < pos ==> v@[a] < x,
        decreases v@.len() - pos,
    {
        pos = pos + 1;
    }
    if pos < v.len() && v[pos] == x {
        return;
    }
    v.insert(pos, x);
    proof {
        assert(v@ == before.insert(pos as int, x));
        if before.contains(x) {
            let c = choose|c: int| 0 <= c < before.len() && before[c] == x;
            if c > pos {
                assert(before[pos as int] < before[c]);
            }
        }
        assert forall|a: int, b: int| 0 <= a < b < v@.len() implies v@[a] < v@[b] by {
            if b < pos {
                assert(v@[a] == before[a] && v@[b] == before[b]);
            } else if b == pos {
                assert(v@[a] == before[a]);
            } else if a < pos {
                assert(v@[a] == before[a] && v@[b] == before[b - 1]);
                assert(before[pos as int] > x);
                if pos < b - 1 {
                    assert(before[pos as int] < before[b - 1]);
                }
            } else if a == pos {
                assert(v@[b] == before[b - 1]);
                assert(before[pos as int] > x);
                if pos < b - 1 {
                    assert(before[pos as int] < before[b - 1]);
                }
            } else {
                assert(v@[a] == before[a - 1] && v@[b] == before[b - 1]);
            }
        }
        assert forall|y: u64| v@.contains(y) <==> (before.contains(y) || y == x) by {
            if v@.contains(y) {
                let c = choose|c: int| 0 <= c < v@.len() && v@[c] == y;
                if c < pos {
                    assert(before[c] == y);
                } else if c > pos {
                    assert(before[c - 1] == y);
                }
            }
            if before.contains(y) {
                let c = choose|c: int| 0 <= c < before.len() && before[c] == y;
                if c < pos {
                    assert(v@[c] == y);
                } else {
                    assert(v@[c + 1] == y);
                }
            }
            if y == x {
                assert(v@[pos as int] == y);
            }
        }
    }
}

} // verus!
