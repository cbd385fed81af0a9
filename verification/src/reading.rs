//! How texts come apart and go together again: cutting, splitting, trimming,
//! and numbers written down and read back.

use crate::parse::{
    after_last, cut_first, digit_value, digits_value, integer_of, joined, nonempty, number_of,
    split, trim_both, trim_end, trim_start,
};
use crate::text::{decimal, digit_char};
use crate::words::{is_white, trimmed, white_end, white_start, words, words_and_rest};
use vstd::prelude::*;

verus! {

/// A text is cut at the first place of a character: what stands before it does
/// not hold the character, and the two parts with it between them are the
/// text. A text without the character is not cut.
pub proof fn law_cut(s: Seq<char>, c: char)
    ensures
        match cut_first(s, c) {
            Some(p) => !p.0.contains(c) && s == p.0 + seq![c] + p.1,
            None => !s.contains(c),
        },
    decreases s.len(),
{
    if s.len() > 0 && s[0] != c {
        let t = s.drop_first();
        law_cut(t, c);
        assert(s =~= seq![s[0]] + t);
        if let Some(p) = cut_first(t, c) {
            let head = seq![s[0]] + p.0;
            assert(s =~= head + seq![c] + p.1);
            if head.contains(c) {
                let i = head.index_of(c);
                assert(p.0[i - 1] == c);
            }
        } else if s.contains(c) {
            let i = s.index_of(c);
            assert(t[i - 1] == c);
        }
    } else if s.len() > 0 {
        assert(s =~= Seq::<char>::empty() + seq![c] + s.drop_first());
    }
}

/// What was put together around a character comes apart there again, where the
/// first part does not hold it.
pub proof fn law_cut_undoes_joining(a: Seq<char>, c: char, b: Seq<char>)
    requires
        !a.contains(c),
    ensures
        cut_first(a + seq![c] + b, c) == Some((a, b)),
    decreases a.len(),
{
    let s = a + seq![c] + b;
    if a.len() == 0 {
        assert(s[0] == c);
        assert(s.drop_first() =~= b);
        assert(a =~= Seq::<char>::empty());
    } else {
        let t = a.drop_first();
        assert(a.contains(a[0]));
        assert(s[0] == a[0]);
        assert(s.drop_first() =~= t + seq![c] + b);
        assert forall|i: int| 0 <= i < t.len() implies t[i] != c by {
            assert(a.contains(a[i + 1]));
        }
        law_cut_undoes_joining(t, c, b);
        assert(seq![a[0]] + t =~= a);
    }
}

/// A text that is split at a character has parts without it, and is the parts
/// put together with the character between them.
pub proof fn law_split_and_join(s: Seq<char>, c: char)
    ensures
        split(s, c).len() >= 1,
        joined(split(s, c), seq![c]) == s,
        forall|i: int|
            0 <= i < split(s, c).len() ==> !(#[trigger] split(s, c)[i]).contains(c),
    decreases s.len(),
{
    if s.len() == 0 {
        assert(joined(split(s, c), seq![c]) =~= s);
    } else {
        let d = s.drop_last();
        let p = split(d, c);
        let q = split(s, c);
        law_split_and_join(d, c);
        assert(s =~= d.push(s.last()));
        if s.last() == c {
            assert(q.drop_last() =~= p);
            assert(joined(q, seq![c]) =~= joined(p, seq![c]) + seq![c] + Seq::<char>::empty());
            assert(joined(p, seq![c]) + seq![c] + Seq::<char>::empty() =~= d.push(c));
            assert forall|i: int| 0 <= i < q.len() implies !(#[trigger] q[i]).contains(c) by {
                if i < p.len() {
                    assert(q[i] == p[i]);
                }
            }
        } else {
            let last = p.last().push(s.last());
            assert(q.drop_last() =~= p.drop_last());
            assert(q.last() == last);
            if p.len() == 1 {
                assert(q[0] == last);
                assert(joined(q, seq![c]) =~= s);
            } else {
                let head = joined(p.drop_last(), seq![c]) + seq![c];
                assert(joined(p, seq![c]) == head + p.last());
                assert(joined(q, seq![c]) == head + last);
                assert(head + last =~= (head + p.last()).push(s.last()));
            }
            assert forall|i: int| 0 <= i < q.len() implies !(#[trigger] q[i]).contains(c) by {
                if i < p.len() - 1 {
                    assert(q[i] == p[i]);
                } else {
                    assert(!p[p.len() - 1].contains(c));
                    if last.contains(c) {
                        let k = last.index_of(c);
                        if k < p.last().len() {
                            assert(p.last()[k] == c);
                        }
                    }
                }
            }
        }
    }
}

proof fn lemma_split_plain(s: Seq<char>, c: char)
    requires
        !s.contains(c),
    ensures
        split(s, c) == seq![s],
    decreases s.len(),
{
    if s.len() > 0 {
        let d = s.drop_last();
        assert forall|i: int| 0 <= i < d.len() implies d[i] != c by {
            assert(s.contains(s[i]));
        }
        assert(s.contains(s[s.len() - 1]));
        lemma_split_plain(d, c);
        assert(d.push(s.last()) =~= s);
        assert(split(s, c) =~= seq![s]);
    }
}

/// Another part behind the character is one more part.
pub proof fn law_split_undoes_joining(a: Seq<char>, c: char, b: Seq<char>)
    requires
        !b.contains(c),
    ensures
        split(a + seq![c] + b, c) == split(a, c).push(b),
        after_last(a + seq![c] + b, c) == b,
    decreases b.len(),
{
    let s = a + seq![c] + b;
    if b.len() == 0 {
        assert(s.drop_last() =~= a);
        assert(s.last() == c);
        assert(b =~= Seq::<char>::empty());
    } else {
        let d = b.drop_last();
        assert(b.contains(b[b.len() - 1]));
        assert forall|i: int| 0 <= i < d.len() implies d[i] != c by {
            assert(b.contains(b[i]));
        }
        law_split_undoes_joining(a, c, d);
        assert(s.drop_last() =~= a + seq![c] + d);
        assert(s.last() == b.last());
        let p = split(a, c).push(d);
        assert(d.push(b.last()) =~= b);
        assert(p.update(p.len() - 1, p.last().push(s.last())) =~= split(a, c).push(b));
    }
}

/// Two parts around a character that neither holds come apart as they were.
pub proof fn law_split_in_two(a: Seq<char>, c: char, b: Seq<char>)
    requires
        !a.contains(c),
        !b.contains(c),
    ensures
        split(a + seq![c] + b, c) == seq![a, b],
{
    lemma_split_plain(a, c);
    law_split_undoes_joining(a, c, b);
    assert(seq![a].push(b) =~= seq![a, b]);
}

/// What is left of a text without a character at its ends neither begins nor
/// ends with it, and nothing but the character was cut off.
pub proof fn law_trim(s: Seq<char>, c: char) -> (from: int)
    ensures
        ({
            let t = trim_both(s, c);
            &&& 0 <= from <= from + t.len() <= s.len()
            &&& t == s.subrange(from, from + t.len())
            &&& t.len() > 0 ==> t[0] != c && t.last() != c
            &&& forall|i: int| 0 <= i < from ==> s[i] == c
            &&& forall|i: int| from + t.len() <= i < s.len() ==> s[i] == c
        }),
{
    let from = lemma_trim_start(s, c);
    let u = trim_start(s, c);
    lemma_trim_end(u, c);
    let t = trim_end(u, c);
    assert(t =~= s.subrange(from, from + t.len()));
    assert forall|i: int| from + t.len() <= i < s.len() implies s[i] == c by {
        assert(u[i - from] == s[i]);
    }
    from
}

proof fn lemma_trim_start(s: Seq<char>, c: char) -> (from: int)
    ensures
        0 <= from <= s.len(),
        trim_start(s, c) == s.skip(from),
        forall|i: int| 0 <= i < from ==> s[i] == c,
        from < s.len() ==> s[from] != c,
    decreases s.len(),
{
    if s.len() > 0 && s[0] == c {
        let t = s.drop_first();
        let k = lemma_trim_start(t, c);
        assert(t.skip(k) =~= s.skip(k + 1));
        assert forall|i: int| 0 <= i < k + 1 implies s[i] == c by {
            if i > 0 {
                assert(t[i - 1] == s[i]);
            }
        }
        k + 1
    } else {
        assert(s.skip(0) =~= s);
        0
    }
}

proof fn lemma_trim_end(s: Seq<char>, c: char)
    ensures
        trim_end(s, c).is_prefix_of(s),
        trim_end(s, c).len() > 0 ==> trim_end(s, c).last() != c,
        forall|i: int| trim_end(s, c).len() <= i < s.len() ==> s[i] == c,
    decreases s.len(),
{
    if s.len() > 0 && s.last() == c {
        let d = s.drop_last();
        lemma_trim_end(d, c);
        let t = trim_end(s, c);
        assert(t =~= s.take(t.len() as int));
        assert forall|i: int| t.len() <= i < s.len() implies s[i] == c by {
            if i < d.len() {
                assert(d[i] == s[i]);
            }
        }
    } else {
        assert(s =~= s.take(s.len() as int));
    }
}

/// Of some texts just those that are not empty stay.
pub proof fn law_nonempty(parts: Seq<Seq<char>>, x: Seq<char>)
    ensures
        nonempty(parts).contains(x) <==> parts.contains(x) && x.len() > 0,
    decreases parts.len(),
{
    let all = nonempty(parts);
    if parts.len() > 0 {
        let d = parts.drop_last();
        let r = nonempty(d);
        law_nonempty(d, x);
        assert(parts[parts.len() - 1] == parts.last());
        if d.contains(x) {
            assert(parts[d.index_of(x)] == x);
        }
        if parts.contains(x) && x != parts.last() {
            assert(d[parts.index_of(x)] == x);
        }
        if r.contains(x) {
            assert(all[r.index_of(x)] == x);
        }
        if all.contains(x) && !r.contains(x) {
            let i = all.index_of(x);
            if i < r.len() {
                assert(r[i] == x);
            }
        }
        if parts.last().len() > 0 {
            assert(all[r.len() as int] == parts.last());
        }
    } else {
        assert(!all.contains(x));
        assert(!parts.contains(x));
    }
}

proof fn lemma_digit(d: int)
    requires
        0 <= d < 10,
    ensures
        digit_value(digit_char(d)) == Some(d as nat),
        digit_char(d) != '-',
        digit_char(d) != '+',
        digit_char(d) != '/',
        digit_char(d) != 'p',
        digit_char(d) != 'd',
{
}

/// A number that is written down has digits alone, at least one.
proof fn lemma_decimal(n: nat)
    ensures
        decimal(n).len() >= 1,
        forall|i: int|
            0 <= i < decimal(n).len() ==> {
                &&& #[trigger] decimal(n)[i] != '-'
                &&& decimal(n)[i] != '+'
                &&& decimal(n)[i] != '/'
                &&& decimal(n)[i] != 'p'
                &&& decimal(n)[i] != 'd'
            },
        digits_value(decimal(n)) == Some(n),
    decreases n,
{
    let s = decimal(n);
    if n < 10 {
        lemma_digit(n as int);
        assert(s[0] == digit_char(n as int));
    } else {
        let t = decimal((n / 10) as nat);
        let d = (n % 10) as int;
        lemma_decimal((n / 10) as nat);
        lemma_digit(d);
        assert(s.drop_last() =~= t);
        assert(s.last() == digit_char(d));
        assert forall|i: int| 0 <= i < s.len() implies {
            &&& #[trigger] s[i] != '-'
            &&& s[i] != '+'
            &&& s[i] != '/'
            &&& s[i] != 'p'
            &&& s[i] != 'd'
        } by {
            if i < t.len() {
                assert(s[i] == t[i]);
            }
        }
        assert((n / 10) * 10 + n % 10 == n);
    }
}

/// A number that is written down reads back as itself, with or without a sign
/// before it. Two numbers that are written alike are the same.
pub proof fn law_numbers_read_back(n: u64, m: u64)
    ensures
        number_of(decimal(n as nat)) == Some(n),
        number_of(seq!['+'] + decimal(n as nat)) == Some(n),
        n <= i32::MAX ==> integer_of(decimal(n as nat)) == Some(n as i32),
        n <= i32::MAX ==> integer_of(seq!['-'] + decimal(n as nat)) == Some((-(n as int)) as i32),
        decimal(n as nat) == decimal(m as nat) ==> n == m,
        !decimal(n as nat).contains('-'),
        !decimal(n as nat).contains('/'),
        decimal(n as nat).last() != 'p' && decimal(n as nat).last() != 'd',
{
    lemma_decimal(n as nat);
    lemma_decimal(m as nat);
    let d = decimal(n as nat);
    assert(d[0] != '+' && d[0] != '-');
    assert((seq!['+'] + d).drop_first() =~= d);
    assert((seq!['-'] + d).drop_first() =~= d);
    if d.contains('-') {
        assert(d[d.index_of('-')] == '-');
    }
    if d.contains('/') {
        assert(d[d.index_of('/')] == '/');
    }
    assert(d[d.len() - 1] == d.last());
}

/// A text that is not made of digits, behind a sign if there is one, is no
/// number.
pub proof fn law_no_number(s: Seq<char>, i: int)
    requires
        0 <= i < s.len(),
        digit_value(s[i]) is None,
        i > 0 || (s[0] != '+' && s[0] != '-'),
    ensures
        number_of(s) is None,
        integer_of(s) is None,
        number_of(Seq::empty()) is None,
        integer_of(Seq::empty()) is None,
{
    let t = s.drop_first();
    lemma_no_digits(s, i);
    if i > 0 {
        assert(t[i - 1] == s[i]);
        lemma_no_digits(t, i - 1);
    }
}

proof fn lemma_no_digits(s: Seq<char>, i: int)
    requires
        0 <= i < s.len(),
        digit_value(s[i]) is None,
    ensures
        digits_value(s) is None,
    decreases s.len(),
{
    if s.len() > 1 && i < s.len() - 1 {
        assert(s.drop_last()[i] == s[i]);
        lemma_no_digits(s.drop_last(), i);
    }
}

/// What is left of a text without white space at its ends neither begins nor
/// ends with it, and nothing but white space was cut off.
pub proof fn law_trimmed(s: Seq<char>) -> (from: int)
    ensures
        ({
            let t = trimmed(s);
            &&& 0 <= from <= from + t.len() <= s.len()
            &&& t == s.subrange(from, from + t.len())
            &&& t.len() > 0 ==> !is_white(t[0]) && !is_white(t.last())
            &&& forall|i: int| 0 <= i < from ==> is_white(s[i])
            &&& forall|i: int| from + t.len() <= i < s.len() ==> is_white(s[i])
        }),
{
    let from = lemma_white_start(s);
    let u = white_start(s);
    lemma_white_end(u);
    let t = white_end(u);
    assert(t =~= s.subrange(from, from + t.len()));
    assert forall|i: int| from + t.len() <= i < s.len() implies is_white(s[i]) by {
        assert(u[i - from] == s[i]);
    }
    from
}

proof fn lemma_white_start(s: Seq<char>) -> (from: int)
    ensures
        0 <= from <= s.len(),
        white_start(s) == s.skip(from),
        forall|i: int| 0 <= i < from ==> is_white(s[i]),
        from < s.len() ==> !is_white(s[from]),
    decreases s.len(),
{
    if s.len() > 0 && is_white(s[0]) {
        let t = s.drop_first();
        let k = lemma_white_start(t);
        assert(t.skip(k) =~= s.skip(k + 1));
        assert forall|i: int| 0 <= i < k + 1 implies is_white(s[i]) by {
            if i > 0 {
                assert(t[i - 1] == s[i]);
            }
        }
        if k + 1 < s.len() {
            assert(t[k] == s[k + 1]);
        }
        k + 1
    } else {
        assert(s.skip(0) =~= s);
        0
    }
}

proof fn lemma_white_end(s: Seq<char>)
    ensures
        white_end(s).is_prefix_of(s),
        white_end(s).len() > 0 ==> !is_white(white_end(s).last()),
        forall|i: int| white_end(s).len() <= i < s.len() ==> is_white(s[i]),
    decreases s.len(),
{
    if s.len() > 0 && is_white(s.last()) {
        let d = s.drop_last();
        lemma_white_end(d);
        let t = white_end(s);
        assert(t =~= s.take(t.len() as int));
        assert forall|i: int| t.len() <= i < s.len() implies is_white(s[i]) by {
            if i < d.len() {
                assert(d[i] == s[i]);
            }
        }
    } else {
        assert(s =~= s.take(s.len() as int));
    }
}

/// The text has no white space.
pub open spec fn is_solid(s: Seq<char>) -> bool {
    forall|i: int| 0 <= i < s.len() ==> !is_white(#[trigger] s[i])
}

proof fn lemma_words(s: Seq<char>)
    ensures
        ({
            let (w, r) = words_and_rest(s);
            &&& is_solid(r)
            &&& forall|i: int|
                0 <= i < w.len() ==> (#[trigger] w[i]).len() > 0 && is_solid(w[i])
            &&& w.flatten() + r == s.filter(|c: char| !is_white(c))
        }),
    decreases s.len(),
{
    reveal(Seq::filter);
    let p = |c: char| !is_white(c);
    if s.len() > 0 {
        let d = s.drop_last();
        lemma_words(d);
        let (w, r) = words_and_rest(d);
        let c = s.last();
        if p(c) {
            assert(w.flatten() + r.push(c) =~= (w.flatten() + r).push(c));
        } else if r.len() > 0 {
            w.lemma_flatten_push(r);
            let e = Seq::<char>::empty();
            assert(w.push(r).flatten() + e =~= w.flatten() + r);
        }
    } else {
        assert(Seq::<Seq<char>>::empty().flatten() + Seq::<char>::empty() =~= s.filter(p));
    }
}

/// The words of a text are not empty and hold no white space, and one behind
/// the other they are all of the text that is no white space.
pub proof fn law_words(s: Seq<char>)
    ensures
        forall|i: int|
            0 <= i < words(s).len() ==> (#[trigger] words(s)[i]).len() > 0 && is_solid(words(s)[i]),
        words(s).flatten() == s.filter(|c: char| !is_white(c)),
{
    lemma_words(s);
    let (w, r) = words_and_rest(s);
    w.lemma_flatten_push(r);
    if r.len() == 0 {
        assert(w.flatten() + r =~= w.flatten());
    }
}

} // verus!
