//! Texts in dictionary order.

use crate::text::{text_before, text_le, text_lt};
use vstd::prelude::*;

verus! {

/// How many leading texts do not come after `x`.
pub open spec fn place_of(s: Seq<Seq<char>>, x: Seq<char>) -> nat
    decreases s.len(),
{
    if s.len() == 0 || text_lt(x, s[0]) {
        0
    } else {
        1 + place_of(s.drop_first(), x)
    }
}

/// The texts in dictionary order.
pub open spec fn sorted_texts(s: Seq<Seq<char>>) -> Seq<Seq<char>>
    decreases s.len(),
{
    if s.len() == 0 {
        s
    } else {
        let r = sorted_texts(s.drop_last());
        r.insert(place_of(r, s.last()) as int, s.last())
    }
}

/// No text comes before an earlier one.
pub open spec fn in_order(s: Seq<Seq<char>>) -> bool {
    forall|i: int, j: int| 0 <= i < j < s.len() ==> text_le(#[trigger] s[i], #[trigger] s[j])
}

/// Nothing comes before itself.
pub proof fn lemma_lt_irreflexive(a: Seq<char>)
    ensures
        !text_lt(a, a),
    decreases a.len(),
{
    if a.len() > 0 {
        lemma_lt_irreflexive(a.drop_first());
    }
}

/// What comes before something that comes before a third comes before it.
pub proof fn lemma_lt_transitive(a: Seq<char>, b: Seq<char>, c: Seq<char>)
    requires
        text_lt(a, b),
        text_lt(b, c),
    ensures
        text_lt(a, c),
    decreases a.len(),
{
    if a.len() > 0 && a[0] == b[0] && b[0] == c[0] {
        lemma_lt_transitive(a.drop_first(), b.drop_first(), c.drop_first());
    }
}

/// Different characters have different code points.
proof fn lemma_code_points(c: char, d: char)
    requires
        c != d,
    ensures
        c as u32 != d as u32,
{
}

/// Of two different texts, one comes before the other.
pub proof fn lemma_lt_total(a: Seq<char>, b: Seq<char>)
    ensures
        text_lt(a, b) || text_lt(b, a) || a == b,
    decreases a.len(),
{
    if a.len() == 0 {
        if b.len() == 0 {
            assert(a =~= b);
        }
    } else if b.len() > 0 {
        if a[0] == b[0] {
            lemma_lt_total(a.drop_first(), b.drop_first());
            if a.drop_first() == b.drop_first() {
                assert(a =~= seq![a[0]] + a.drop_first());
                assert(b =~= seq![b[0]] + b.drop_first());
            }
        } else {
            lemma_code_points(a[0], b[0]);
        }
    }
}

/// Two texts do not both come before the other.
pub proof fn lemma_lt_asymmetric(a: Seq<char>, b: Seq<char>)
    requires
        text_lt(a, b),
    ensures
        !text_lt(b, a),
{
    if text_lt(b, a) {
        lemma_lt_transitive(a, b, a);
        lemma_lt_irreflexive(a);
    }
}

proof fn lemma_place(s: Seq<Seq<char>>, x: Seq<char>)
    requires
        in_order(s),
    ensures
        place_of(s, x) <= s.len(),
        forall|i: int| 0 <= i < place_of(s, x) ==> text_le(#[trigger] s[i], x),
        forall|i: int| place_of(s, x) <= i < s.len() ==> text_lt(x, #[trigger] s[i]),
    decreases s.len(),
{
    if s.len() > 0 {
        if text_lt(x, s[0]) {
            assert forall|i: int| 0 <= i < s.len() implies text_lt(x, #[trigger] s[i]) by {
                if i > 0 {
                    assert(text_le(s[0], s[i]));
                    lemma_lt_total(s[0], s[i]);
                    if text_lt(s[0], s[i]) {
                        lemma_lt_transitive(x, s[0], s[i]);
                    }
                }
            }
        } else {
            let t = s.drop_first();
            assert(in_order(t)) by {
                assert forall|i: int, j: int| 0 <= i < j < t.len() implies text_le(
                    #[trigger] t[i],
                    #[trigger] t[j],
                ) by {
                    assert(text_le(s[i + 1], s[j + 1]));
                }
            }
            lemma_place(t, x);
            assert forall|i: int| 0 <= i < place_of(s, x) implies text_le(#[trigger] s[i], x) by {
                if i > 0 {
                    assert(s[i] == t[i - 1]);
                }
            }
            assert forall|i: int| place_of(s, x) <= i < s.len() implies text_lt(
                x,
                #[trigger] s[i],
            ) by {
                assert(s[i] == t[i - 1]);
            }
        }
    }
}

/// The result of sorting is in order and holds the same texts.
pub proof fn lemma_sorted(s: Seq<Seq<char>>)
    ensures
        in_order(sorted_texts(s)),
        sorted_texts(s).len() == s.len(),
        sorted_texts(s).to_multiset() == s.to_multiset(),
    decreases s.len(),
{
    broadcast use vstd::seq_lib::group_to_multiset_ensures;

    if s.len() > 0 {
        let d = s.drop_last();
        let x = s.last();
        lemma_sorted(d);
        let r = sorted_texts(d);
        lemma_place(r, x);
        let p = place_of(r, x) as int;
        let t = r.insert(p, x);
        assert forall|i: int, j: int| 0 <= i < j < t.len() implies text_le(
            #[trigger] t[i],
            #[trigger] t[j],
        ) by {
            let i0 = if i < p {
                i
            } else {
                i - 1
            };
            let j0 = if j < p {
                j
            } else {
                j - 1
            };
            if i == p {
                assert(text_lt(x, r[j0]));
                lemma_lt_asymmetric(x, r[j0]);
            } else if j == p {
                assert(text_le(r[i0], x));
            } else {
                assert(text_le(r[i0], r[j0]));
            }
        }
        assert(s =~= d.push(x));
        vstd::seq_lib::to_multiset_insert(r, p, x);
    }
}

/// The position at which `x` belongs among texts in order.
fn find_place(s: &Vec<String>, x: &str) -> (p: usize)
    ensures
        p == place_of(s.deep_view(), x@),
        p <= s@.len(),
{
    let ghost v = s.deep_view();
    let mut p: usize = 0;
    assert(v.skip(0) =~= v);
    while p < s.len() && !text_before(x, s[p].as_str())
        invariant
            p <= s@.len(),
            v == s.deep_view(),
            place_of(v, x@) == p + place_of(v.skip(p as int), x@),
        decreases s@.len() - p,
    {
        proof {
            assert(v.skip(p as int)[0] == v[p as int]);
            assert(v[p as int] == s@[p as int]@);
            assert(v.skip(p as int).drop_first() =~= v.skip(p as int + 1));
        }
        p += 1;
    }
    proof {
        if p < v.len() {
            assert(v.skip(p as int)[0] == v[p as int]);
            assert(v[p as int] == s@[p as int]@);
        }
    }
    p
}

/// The texts in dictionary order.
pub fn sort_texts(s: &Vec<String>) -> (r: Vec<String>)
    ensures
        r.deep_view() == sorted_texts(s.deep_view()),
{
    let ghost v = s.deep_view();
    let mut r: Vec<String> = Vec::new();
    let mut i: usize = 0;
    assert(v.take(0) =~= Seq::<Seq<char>>::empty());
    assert(r.deep_view() =~= sorted_texts(v.take(0)));
    while i < s.len()
        invariant
            i <= s@.len(),
            v == s.deep_view(),
            r.deep_view() == sorted_texts(v.take(i as int)),
        decreases s@.len() - i,
    {
        let ghost rv = r.deep_view();
        let p: usize = find_place(&r, s[i].as_str());
        r.insert(p, s[i].clone());
        i += 1;
        proof {
            assert(v.take(i as int).drop_last() =~= v.take(i as int - 1));
            assert(v.take(i as int).last() == v[i as int - 1]);
            assert(r.deep_view() =~= rv.insert(p as int, v[i as int - 1]));
        }
    }
    assert(v.take(v.len() as int) =~= v);
    r
}

} // verus!
