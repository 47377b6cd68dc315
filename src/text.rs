//! Character-level text helpers: conversion between strings and character
//! vectors, splitting at a separator, lexicographic order and sorting.
use vstd::prelude::*;
use vstd::relations::*;
use vstd::std_specs::iter::IteratorSpec;

verus! {

broadcast use vstd::string::group_string_axioms, vstd::seq_lib::group_to_multiset_ensures;

/// The character sequences of a list of strings.
pub open spec fn views(v: Seq<String>) -> Seq<Seq<char>> {
    v.map_values(|s: String| s@)
}

/// Relies on std's `impl FromIterator<&char> for String`: the string holds the
/// given characters, in order.
#[verifier::external_body]
pub fn string_of(chars: &Vec<char>) -> (r: String)
    ensures
        r@ == chars@,
{
    chars.iter().collect::<String>()
}

/// The characters of `s`, in order.
pub fn chars_of(s: &str) -> (r: Vec<char>)
    ensures
        r@ == s@,
{
    let mut out: Vec<char> = Vec::new();
    let mut it = s.chars();
    loop
        invariant
            it.obeys_prophetic_iter_laws(),
            it.decrease() is Some,
            out@ + it.remaining() == s@,
        ensures
            out@ == s@,
        decreases it.decrease()->0,
    {
        match it.next() {
            Some(c) => {
                out.push(c);
            },
            None => {
                assert(out@ + it.remaining() =~= out@);
                break;
            },
        }
    }
    out
}

/// The pieces of `text` between occurrences of `sep`: one more piece than
/// there are separators, each free of `sep`.
pub open spec fn split(text: Seq<char>, sep: char) -> Seq<Seq<char>>
    decreases text.len(),
{
    if text.len() == 0 {
        seq![Seq::<char>::empty()]
    } else {
        let init = split(text.drop_last(), sep);
        if text.last() == sep {
            init.push(Seq::<char>::empty())
        } else {
            init.update(init.len() - 1, init.last().push(text.last()))
        }
    }
}

/// The pieces joined with `sep` between each two of them.
pub open spec fn join(pieces: Seq<Seq<char>>, sep: char) -> Seq<char>
    decreases pieces.len(),
{
    if pieces.len() == 0 {
        Seq::empty()
    } else if pieces.len() == 1 {
        pieces[0]
    } else {
        join(pieces.drop_last(), sep) + seq![sep] + pieces.last()
    }
}

pub proof fn lemma_split_len(text: Seq<char>, sep: char)
    ensures
        split(text, sep).len() >= 1,
    decreases text.len(),
{
    if text.len() > 0 {
        lemma_split_len(text.drop_last(), sep);
    }
}

/// Splitting and joining again gives the text back, and no piece holds the
/// separator.
pub proof fn lemma_join_split(text: Seq<char>, sep: char)
    ensures
        join(split(text, sep), sep) == text,
        forall|i: int| 0 <= i < split(text, sep).len() ==> !(#[trigger] split(text, sep)[i]).contains(sep),
    decreases text.len(),
{
    if text.len() > 0 {
        let t = text.drop_last();
        lemma_join_split(t, sep);
        lemma_split_len(t, sep);
        let init = split(t, sep);
        if text.last() == sep {
            let r = init.push(Seq::<char>::empty());
            assert(r.drop_last() =~= init);
            assert(join(r, sep) == join(r.drop_last(), sep) + seq![sep] + r.last());
            assert(join(r, sep) =~= text);
            assert forall|i: int| 0 <= i < r.len() implies !(#[trigger] r[i]).contains(sep) by {
                if i < init.len() {
                    assert(r[i] == init[i]);
                }
            }
        } else {
            let r = init.update(init.len() - 1, init.last().push(text.last()));
            if init.len() == 1 {
                assert(join(init, sep) == init[0]);
                assert(join(r, sep) =~= text);
            } else {
                assert(r.drop_last() =~= init.drop_last());
                assert(join(init, sep) == join(init.drop_last(), sep) + seq![sep] + init.last());
                assert(join(r, sep) == join(r.drop_last(), sep) + seq![sep] + r.last());
                assert(text =~= t.push(text.last()));
                assert(join(r, sep) =~= text);
            }
            assert forall|i: int| 0 <= i < r.len() implies !(#[trigger] r[i]).contains(sep) by {
                if i < init.len() - 1 {
                    assert(r[i] == init[i]);
                } else {
                    assert(!init[i].contains(sep));
                    if r[i].contains(sep) {
                        let k = choose|k: int| 0 <= k < r[i].len() && r[i][k] == sep;
                        if k < init[i].len() {
                            assert(init[i][k] == sep);
                        }
                    }
                }
            }
        }
    }
}

/// Splits `text` at every occurrence of `sep`.
pub fn split_at_char(text: &Vec<char>, sep: char) -> (r: Vec<Vec<char>>)
    ensures
        r@.map_values(|p: Vec<char>| p@) == split(text@, sep),
{
    let mut out: Vec<Vec<char>> = Vec::new();
    let mut cur: Vec<char> = Vec::new();
    let mut i: usize = 0;
    while i < text.len()
        invariant
            i <= text.len(),
            out@.map_values(|p: Vec<char>| p@).push(cur@) == split(text@.subrange(0, i as int), sep),
        decreases text.len() - i,
    {
        let c = text[i];
        let ghost prev = text@.subrange(0, i as int);
        assert(text@.subrange(0, i + 1).drop_last() =~= prev);
        if c == sep {
            let done = cur;
            out.push(done);
            cur = Vec::new();
            assert(out@.map_values(|p: Vec<char>| p@).push(cur@) =~= split(prev, sep).push(
                Seq::<char>::empty(),
            ));
        } else {
            cur.push(c);
            assert(out@.map_values(|p: Vec<char>| p@).push(cur@) =~= split(prev, sep).update(
                split(prev, sep).len() - 1,
                split(prev, sep).last().push(c),
            ));
        }
        i = i + 1;
    }
    assert(text@.subrange(0, i as int) =~= text@);
    out.push(cur);
    out
}

/// Lexicographic order on character sequences, by code point; it orders
/// strings as Rust's `Ord` for `String` does.
pub open spec fn text_leq(a: Seq<char>, b: Seq<char>) -> bool
    decreases a.len(),
{
    if a.len() == 0 {
        true
    } else if b.len() == 0 {
        false
    } else if a[0] != b[0] {
        (a[0] as u32) < (b[0] as u32)
    } else {
        text_leq(a.drop_first(), b.drop_first())
    }
}

pub open spec fn text_order() -> spec_fn(Seq<char>, Seq<char>) -> bool {
    |a: Seq<char>, b: Seq<char>| text_leq(a, b)
}

proof fn lemma_char_u32_injective(x: char, y: char)
    ensures
        (x as u32) == (y as u32) ==> x == y,
{
    broadcast use vstd::utf8::char_u32_cast;
    if (x as u32) == (y as u32) {
        vstd::utf8::char_u32_cast(x, x as u32);
        vstd::utf8::char_u32_cast(y, y as u32);
    }
}

proof fn lemma_text_leq_antisymmetric(a: Seq<char>, b: Seq<char>)
    requires
        text_leq(a, b),
        text_leq(b, a),
    ensures
        a == b,
    decreases a.len(),
{
    if a.len() == 0 {
        assert(b.len() == 0);
        assert(a =~= b);
    } else {
        if a[0] != b[0] {
            lemma_char_u32_injective(a[0], b[0]);
        }
        lemma_text_leq_antisymmetric(a.drop_first(), b.drop_first());
        assert(a =~= seq![a[0]] + a.drop_first());
        assert(b =~= seq![b[0]] + b.drop_first());
    }
}

proof fn lemma_text_leq_transitive(a: Seq<char>, b: Seq<char>, c: Seq<char>)
    requires
        text_leq(a, b),
        text_leq(b, c),
    ensures
        text_leq(a, c),
    decreases a.len(),
{
    if a.len() > 0 && b.len() > 0 && c.len() > 0 {
        if a[0] == b[0] && b[0] == c[0] {
            lemma_text_leq_transitive(a.drop_first(), b.drop_first(), c.drop_first());
        } else if a[0] != c[0] {
            if a[0] == b[0] {
            } else if b[0] == c[0] {
            } else {
            }
        } else {
            // a[0] == c[0], but one of the steps is strict
            if a[0] != b[0] {
                lemma_char_u32_injective(b[0], c[0]);
            } else {
                lemma_char_u32_injective(a[0], b[0]);
            }
        }
    }
}

proof fn lemma_text_leq_total(a: Seq<char>, b: Seq<char>)
    ensures
        text_leq(a, b) || text_leq(b, a),
    decreases a.len(),
{
    if a.len() > 0 && b.len() > 0 {
        if a[0] == b[0] {
            lemma_text_leq_total(a.drop_first(), b.drop_first());
        } else {
            lemma_char_u32_injective(a[0], b[0]);
        }
    }
}

proof fn lemma_text_leq_reflexive(a: Seq<char>)
    ensures
        text_leq(a, a),
    decreases a.len(),
{
    if a.len() > 0 {
        lemma_text_leq_reflexive(a.drop_first());
    }
}

/// The lexicographic order is a total order.
pub proof fn lemma_text_order_total()
    ensures
        total_ordering(text_order()),
{
    let r = text_order();
    assert forall|x: Seq<char>| #[trigger] r(x, x) by {
        lemma_text_leq_reflexive(x);
    }
    assert forall|x: Seq<char>, y: Seq<char>| #[trigger] r(x, y) && #[trigger] r(y, x) implies x
        == y by {
        lemma_text_leq_antisymmetric(x, y);
    }
    assert forall|x: Seq<char>, y: Seq<char>, z: Seq<char>| #[trigger] r(x, y) && #[trigger] r(
        y,
        z,
    ) implies r(x, z) by {
        lemma_text_leq_transitive(x, y, z);
    }
    assert forall|x: Seq<char>, y: Seq<char>| #[trigger] r(x, y) || #[trigger] r(y, x) by {
        lemma_text_leq_total(x, y);
    }
}

/// Two sequences sorted by the same total order, with the same elements
/// counted with multiplicity, are equal.
pub proof fn lemma_sorted_unique<T>(a: Seq<T>, b: Seq<T>, leq: spec_fn(T, T) -> bool)
    requires
        total_ordering(leq),
        sorted_by(a, leq),
        sorted_by(b, leq),
        a.to_multiset() == b.to_multiset(),
    ensures
        a == b,
    decreases a.len(),
{
    if a.len() == 0 {
        assert(b.to_multiset().len() == 0);
        assert(b =~= a);
    } else {
        vstd::seq_lib::to_multiset_len(a);
        vstd::seq_lib::to_multiset_len(b);
        assert(b.len() == a.len());
        let x = a[0];
        let y = b[0];
        vstd::seq_lib::to_multiset_contains(a, x);
        vstd::seq_lib::to_multiset_contains(b, x);
        vstd::seq_lib::to_multiset_contains(a, y);
        vstd::seq_lib::to_multiset_contains(b, y);
        assert(a.contains(x));
        assert(b.contains(x));
        let j = choose|j: int| 0 <= j < b.len() && b[j] == x;
        if j > 0 {
            assert(leq(b[0], b[j]));
        }
        assert(leq(y, x));
        assert(a.contains(y));
        let k = choose|k: int| 0 <= k < a.len() && a[k] == y;
        if k > 0 {
            assert(leq(a[0], a[k]));
        }
        assert(leq(x, y));
        assert(x == y);
        let a1 = a.drop_first();
        let b1 = b.drop_first();
        assert(a =~= seq![x] + a1);
        assert(b =~= seq![x] + b1);
        vstd::seq_lib::to_multiset_remove(a, 0);
        vstd::seq_lib::to_multiset_remove(b, 0);
        assert(a.remove(0) =~= a1);
        assert(b.remove(0) =~= b1);
        assert(a1.to_multiset() == b1.to_multiset());
        assert(sorted_by(a1, leq)) by {
            assert forall|i: int, j2: int| 0 <= i < j2 < a1.len() implies #[trigger] leq(
                a1[i],
                a1[j2],
            ) by {
                assert(leq(a[i + 1], a[j2 + 1]));
            }
        }
        assert(sorted_by(b1, leq)) by {
            assert forall|i: int, j2: int| 0 <= i < j2 < b1.len() implies #[trigger] leq(
                b1[i],
                b1[j2],
            ) by {
                assert(leq(b[i + 1], b[j2 + 1]));
            }
        }
        lemma_sorted_unique(a1, b1, leq);
    }
}

/// Whether `a` orders before or equal to `b`, as `text_leq` says.
pub fn chars_leq(a: &Vec<char>, b: &Vec<char>) -> (r: bool)
    ensures
        r == text_leq(a@, b@),
{
    let mut i: usize = 0;
    assert(a@.subrange(0, a.len() as int) =~= a@);
    assert(b@.subrange(0, b.len() as int) =~= b@);
    while i < a.len() && i < b.len() && a[i] == b[i]
        invariant
            i <= a.len(),
            i <= b.len(),
            a@.subrange(0, i as int) == b@.subrange(0, i as int),
            text_leq(a@, b@) == text_leq(a@.subrange(i as int, a.len() as int), b@.subrange(i as int, b.len() as int)),
        decreases a.len() - i,
    {
        proof {
            let sa = a@.subrange(i as int, a.len() as int);
            let sb = b@.subrange(i as int, b.len() as int);
            assert(sa.drop_first() =~= a@.subrange(i + 1, a.len() as int));
            assert(sb.drop_first() =~= b@.subrange(i + 1, b.len() as int));
            assert(a@.subrange(0, i + 1) =~= a@.subrange(0, i as int).push(a@[i as int]));
            assert(b@.subrange(0, i + 1) =~= b@.subrange(0, i as int).push(b@[i as int]));
        }
        i = i + 1;
    }
    if i == a.len() {
        true
    } else if i == b.len() {
        false
    } else {
        (a[i] as u32) < (b[i] as u32)
    }
}

/// Whether `a` orders before or equal to `b`, as `text_leq` says.
pub fn text_le(a: &String, b: &String) -> (r: bool)
    ensures
        r == text_leq(a@, b@),
{
    let ca = chars_of(a.as_str());
    let cb = chars_of(b.as_str());
    chars_leq(&ca, &cb)
}

/// The lines in ascending lexicographic order.
pub fn sort_lines(lines: &Vec<String>) -> (r: Vec<String>)
    ensures
        views(r@) == views(lines@).sort_by(text_order()),
{
    let mut out: Vec<String> = Vec::new();
    let mut i: usize = 0;
    proof {
        lemma_text_order_total();
    }
    while i < lines.len()
        invariant
            i <= lines.len(),
            total_ordering(text_order()),
            sorted_by(views(out@), text_order()),
            views(out@).to_multiset() == views(lines@).subrange(0, i as int).to_multiset(),
        decreases lines.len() - i,
    {
        let x = lines[i].clone();
        let mut p: usize = 0;
        while p < out.len() && text_le(&out[p], &x)
            invariant
                p <= out.len(),
                forall|k: int| 0 <= k < p ==> text_leq(#[trigger] out@[k]@, x@),
            decreases out.len() - p,
        {
            p = p + 1;
        }
        let ghost old_v = views(out@);
        assert(forall|k: int| 0 <= k < p ==> text_leq(#[trigger] old_v[k], x@));
        out.insert(p, x);
        proof {
            let nv = views(out@);
            assert(nv =~= old_v.insert(p as int, x@));
            let leq = text_order();
            if p < old_v.len() {
                lemma_text_leq_total(old_v[p as int], x@);
                assert(leq(x@, old_v[p as int]));
            }
            assert forall|k1: int, k2: int| 0 <= k1 < k2 < nv.len() implies #[trigger] leq(
                nv[k1],
                nv[k2],
            ) by {
                if k2 < p {
                    assert(leq(old_v[k1], old_v[k2]));
                } else if k2 == p {
                    assert(text_leq(old_v[k1], x@));
                } else if k1 < p {
                    assert(leq(old_v[k1], old_v[k2 - 1]));
                } else if k1 == p {
                    if k2 - 1 > p {
                        assert(leq(old_v[p as int], old_v[k2 - 1]));
                    }
                } else {
                    assert(leq(old_v[k1 - 1], old_v[k2 - 1]));
                }
            }
            let pre = views(lines@).subrange(0, i as int);
            assert(views(lines@).subrange(0, i + 1) =~= pre.push(x@));
            assert(old_v.insert(p as int, x@).to_multiset() == old_v.to_multiset().insert(x@));
        }
        i = i + 1;
    }
    proof {
        assert(views(lines@).subrange(0, lines.len() as int) =~= views(lines@));
        let s = views(lines@).sort_by(text_order());
        views(lines@).lemma_sort_by_ensures(text_order());
        lemma_sorted_unique(views(out@), s, text_order());
    }
    out
}

proof fn lemma_split_plain(x: Seq<char>, sep: char)
    requires
        !x.contains(sep),
    ensures
        split(x, sep) == seq![x],
    decreases x.len(),
{
    if x.len() > 0 {
        let x1 = x.drop_last();
        assert(!x1.contains(sep)) by {
            if x1.contains(sep) {
                let k = choose|k: int| 0 <= k < x1.len() && x1[k] == sep;
                assert(x[k] == sep);
            }
        }
        lemma_split_plain(x1, sep);
        assert(x.last() != sep) by {
            assert(x[x.len() - 1] == x.last());
        }
        assert(x1.push(x.last()) =~= x);
        assert(seq![x1].update(0, x1.push(x.last())) =~= seq![x]);
    } else {
        assert(x =~= Seq::<char>::empty());
    }
}

/// The pieces of a text, a separator and a piece free of it are the pieces
/// of the text followed by that piece.
pub proof fn lemma_split_after_sep(t: Seq<char>, x: Seq<char>, sep: char)
    requires
        !x.contains(sep),
    ensures
        split(t + seq![sep] + x, sep) == split(t, sep).push(x),
    decreases x.len(),
{
    let u = t + seq![sep] + x;
    if x.len() == 0 {
        assert(u =~= t.push(sep));
        assert(u.drop_last() =~= t);
        assert(x =~= Seq::<char>::empty());
    } else {
        let x1 = x.drop_last();
        assert(!x1.contains(sep)) by {
            if x1.contains(sep) {
                let k = choose|k: int| 0 <= k < x1.len() && x1[k] == sep;
                assert(x[k] == sep);
            }
        }
        lemma_split_after_sep(t, x1, sep);
        assert(u.drop_last() =~= t + seq![sep] + x1);
        assert(u.last() == x.last());
        assert(x.last() != sep) by {
            assert(x[x.len() - 1] == x.last());
        }
        assert(x1.push(x.last()) =~= x);
        let base = split(t, sep).push(x1);
        assert(base.update(base.len() - 1, base.last().push(x.last())) =~= split(t, sep).push(x));
    }
}

/// Joining pieces that hold no separator and splitting again gives the
/// pieces back.
pub proof fn lemma_split_join(pieces: Seq<Seq<char>>, sep: char)
    requires
        pieces.len() >= 1,
        forall|i: int| 0 <= i < pieces.len() ==> !(#[trigger] pieces[i]).contains(sep),
    ensures
        split(join(pieces, sep), sep) == pieces,
    decreases pieces.len(),
{
    if pieces.len() == 1 {
        lemma_split_plain(pieces[0], sep);
        assert(seq![pieces[0]] =~= pieces);
    } else {
        let init = pieces.drop_last();
        assert(forall|i: int| 0 <= i < init.len() ==> !(#[trigger] init[i]).contains(sep)) by {
            assert forall|i: int| 0 <= i < init.len() implies !(#[trigger] init[i]).contains(sep) by {
                assert(init[i] == pieces[i]);
            }
        }
        lemma_split_join(init, sep);
        assert(!pieces.last().contains(sep)) by {
            assert(pieces[pieces.len() - 1] == pieces.last());
        }
        lemma_split_after_sep(join(init, sep), pieces.last(), sep);
        assert(init.push(pieces.last()) =~= pieces);
    }
}

/// Joining two non-empty runs of pieces puts one separator between them.
pub proof fn lemma_join_concat(a: Seq<Seq<char>>, b: Seq<Seq<char>>, sep: char)
    requires
        a.len() >= 1,
        b.len() >= 1,
    ensures
        join(a + b, sep) == join(a, sep) + seq![sep] + join(b, sep),
    decreases b.len(),
{
    let ab = a + b;
    assert(ab.last() == b.last());
    if b.len() == 1 {
        assert(ab.drop_last() =~= a);
        assert(join(b, sep) == b[0]);
    } else {
        let b1 = b.drop_last();
        assert(ab.drop_last() =~= a + b1);
        lemma_join_concat(a, b1, sep);
        assert(join(ab, sep) =~= join(a, sep) + seq![sep] + join(b, sep));
    }
}

/// Whether `s` holds the character `c`.
pub fn contains_char(s: &str, c: char) -> (r: bool)
    ensures
        r == s@.contains(c),
{
    let chars = chars_of(s);
    let mut i: usize = 0;
    while i < chars.len()
        invariant
            i <= chars.len(),
            chars@ == s@,
            forall|k: int| 0 <= k < i ==> chars@[k] != c,
        decreases chars.len() - i,
    {
        if chars[i] == c {
            return true;
        }
        i = i + 1;
    }
    false
}

} // verus!
