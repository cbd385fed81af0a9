//! Taking texts apart and putting them together: trimming, splitting,
//! joining, numbers.

use crate::text::chars_of;
use vstd::prelude::*;
use vstd::string::*;

verus! {

/// The characters from `from` up to `to`.
pub fn part_of(v: &Vec<char>, from: usize, to: usize) -> (r: String)
    requires
        from <= to <= v@.len(),
    ensures
        r@ == v@.subrange(from as int, to as int),
{
    let mut r = String::new();
    let mut i: usize = from;
    assert(v@.subrange(from as int, from as int) =~= Seq::<char>::empty());
    while i < to
        invariant
            from <= i <= to <= v@.len(),
            r@ == v@.subrange(from as int, i as int),
        decreases to - i,
    {
        r.push(v[i]);
        i += 1;
        assert(v@.subrange(from as int, i as int) =~= v@.subrange(from as int, i as int - 1).push(
            v@[i as int - 1],
        ));
    }
    r
}

/// The text without the character `c` at its beginning.
pub open spec fn trim_start(s: Seq<char>, c: char) -> Seq<char>
    decreases s.len(),
{
    if s.len() > 0 && s[0] == c {
        trim_start(s.drop_first(), c)
    } else {
        s
    }
}

/// The text without the character `c` at its end.
pub open spec fn trim_end(s: Seq<char>, c: char) -> Seq<char>
    decreases s.len(),
{
    if s.len() > 0 && s.last() == c {
        trim_end(s.drop_last(), c)
    } else {
        s
    }
}

/// The text without the character `c` at its beginning and its end.
pub open spec fn trim_both(s: Seq<char>, c: char) -> Seq<char> {
    trim_end(trim_start(s, c), c)
}

/// The text without the character `c` at its beginning and its end.
pub fn trim_char(s: &str, c: char) -> (r: String)
    ensures
        r@ == trim_both(s@, c),
{
    let v = chars_of(s);
    let mut a: usize = 0;
    assert(s@.skip(0) =~= s@);
    while a < v.len() && v[a] == c
        invariant
            a <= v@.len(),
            v@ == s@,
            trim_start(s@, c) == trim_start(s@.skip(a as int), c),
        decreases v@.len() - a,
    {
        proof {
            assert(s@.skip(a as int)[0] == s@[a as int]);
            assert(s@.skip(a as int).drop_first() =~= s@.skip(a as int + 1));
        }
        a += 1;
    }
    let mut b: usize = v.len();
    let ghost t = s@.skip(a as int);
    proof {
        if a < v@.len() {
            assert(t[0] == s@[a as int]);
        }
        assert(trim_start(s@, c) == t);
        assert(s@.subrange(a as int, b as int) =~= t);
    }
    while b > a && v[b - 1] == c
        invariant
            a <= b <= v@.len(),
            v@ == s@,
            trim_end(t, c) == trim_end(s@.subrange(a as int, b as int), c),
        decreases b - a,
    {
        proof {
            assert(s@.subrange(a as int, b as int).last() == s@[b as int - 1]);
            assert(s@.subrange(a as int, b as int).drop_last() =~= s@.subrange(
                a as int,
                b as int - 1,
            ));
        }
        b -= 1;
    }
    proof {
        if b > a {
            assert(s@.subrange(a as int, b as int).last() == s@[b as int - 1]);
        }
    }
    part_of(&v, a, b)
}

/// The parts of a text between the characters `c`.
pub open spec fn split(s: Seq<char>, c: char) -> Seq<Seq<char>>
    decreases s.len(),
{
    if s.len() == 0 {
        seq![s]
    } else {
        let p = split(s.drop_last(), c);
        if s.last() == c {
            p.push(Seq::empty())
        } else {
            p.update(p.len() - 1, p.last().push(s.last()))
        }
    }
}

pub proof fn lemma_split_nonempty(s: Seq<char>, c: char)
    ensures
        split(s, c).len() >= 1,
    decreases s.len(),
{
    if s.len() > 0 {
        lemma_split_nonempty(s.drop_last(), c);
    }
}

/// The parts of a text between the characters `c`; there is at least one.
pub fn split_text(s: &str, c: char) -> (r: Vec<String>)
    ensures
        r.deep_view() == split(s@, c),
        r@.len() >= 1,
{
    let v = chars_of(s);
    let mut done: Vec<String> = Vec::new();
    let mut cur = String::new();
    let mut i: usize = 0;
    assert(s@.take(0) =~= Seq::<char>::empty());
    assert(done.deep_view().push(cur@) =~= split(s@.take(0), c));
    while i < v.len()
        invariant
            i <= v@.len(),
            v@ == s@,
            done.deep_view().push(cur@) == split(s@.take(i as int), c),
        decreases v@.len() - i,
    {
        let ghost d = done.deep_view();
        let ghost cv = cur@;
        proof {
            assert(s@.take(i as int + 1).drop_last() =~= s@.take(i as int));
            assert(s@.take(i as int + 1).last() == s@[i as int]);
        }
        if v[i] == c {
            done.push(cur);
            cur = String::new();
            proof {
                assert(done.deep_view() =~= d.push(cv));
                assert(cur@ =~= Seq::<char>::empty());
            }
        } else {
            cur.push(v[i]);
            assert(d.push(cur@) =~= d.push(cv).update(d.len() as int, cv.push(s@[i as int])));
        }
        i += 1;
    }
    assert(s@.take(s@.len() as int) =~= s@);
    let ghost d = done.deep_view();
    let ghost cv = cur@;
    done.push(cur);
    assert(done.deep_view() =~= d.push(cv));
    done
}

/// Texts put together with `sep` between them.
pub open spec fn joined(parts: Seq<Seq<char>>, sep: Seq<char>) -> Seq<char>
    decreases parts.len(),
{
    if parts.len() == 0 {
        Seq::empty()
    } else if parts.len() == 1 {
        parts[0]
    } else {
        joined(parts.drop_last(), sep) + sep + parts.last()
    }
}

/// Texts put together with `sep` between them.
pub fn join_texts(parts: &Vec<String>, sep: &str) -> (r: String)
    ensures
        r@ == joined(parts.deep_view(), sep@),
{
    let ghost p = parts.deep_view();
    let mut r = String::new();
    let mut i: usize = 0;
    assert(p.take(0) =~= Seq::<Seq<char>>::empty());
    while i < parts.len()
        invariant
            i <= parts@.len(),
            p == parts.deep_view(),
            r@ == joined(p.take(i as int), sep@),
        decreases parts@.len() - i,
    {
        proof {
            assert(p.take(i as int + 1).drop_last() =~= p.take(i as int));
            assert(p.take(i as int + 1).last() == p[i as int]);
            assert(p[i as int] == parts@[i as int]@);
        }
        if i == 0 {
            r = parts[0].clone();
            assert(p.take(1)[0] == p[0]);
        } else {
            r.append(sep);
            r.append(parts[i].as_str());
        }
        i += 1;
    }
    assert(p.take(p.len() as int) =~= p);
    r
}

/// The texts that are not empty.
pub open spec fn nonempty(parts: Seq<Seq<char>>) -> Seq<Seq<char>>
    decreases parts.len(),
{
    if parts.len() == 0 {
        Seq::empty()
    } else if parts.last().len() == 0 {
        nonempty(parts.drop_last())
    } else {
        nonempty(parts.drop_last()).push(parts.last())
    }
}

/// The texts that are not empty.
pub fn drop_empty(parts: &Vec<String>) -> (r: Vec<String>)
    ensures
        r.deep_view() == nonempty(parts.deep_view()),
{
    let ghost p = parts.deep_view();
    let mut r: Vec<String> = Vec::new();
    let mut i: usize = 0;
    assert(p.take(0) =~= Seq::<Seq<char>>::empty());
    assert(r.deep_view() =~= Seq::<Seq<char>>::empty());
    while i < parts.len()
        invariant
            i <= parts@.len(),
            p == parts.deep_view(),
            r.deep_view() == nonempty(p.take(i as int)),
        decreases parts@.len() - i,
    {
        let ghost rv = r.deep_view();
        proof {
            assert(p.take(i as int + 1).drop_last() =~= p.take(i as int));
            assert(p.take(i as int + 1).last() == p[i as int]);
            assert(p[i as int] == parts@[i as int]@);
        }
        if !parts[i].as_str().is_empty() {
            r.push(parts[i].clone());
            assert(r.deep_view() =~= rv.push(p[i as int]));
        }
        i += 1;
    }
    assert(p.take(p.len() as int) =~= p);
    r
}

/// The part after the last `c`; all of it where there is none.
pub open spec fn after_last(s: Seq<char>, c: char) -> Seq<char> {
    split(s, c).last()
}

/// The part after the last `c`.
pub fn last_part(s: &str, c: char) -> (r: String)
    ensures
        r@ == after_last(s@, c),
{
    let parts = split_text(s, c);
    let r = parts[parts.len() - 1].clone();
    assert(parts.deep_view().last() == r@);
    r
}

/// What comes before and after the first `c`, if there is one.
pub open spec fn cut_first(s: Seq<char>, c: char) -> Option<(Seq<char>, Seq<char>)>
    decreases s.len(),
{
    if s.len() == 0 {
        None
    } else if s[0] == c {
        Some((Seq::empty(), s.drop_first()))
    } else {
        match cut_first(s.drop_first(), c) {
            Some(p) => Some((seq![s[0]] + p.0, p.1)),
            None => None,
        }
    }
}

/// What comes before and after the first `c`, if there is one.
pub fn cut_at(s: &str, c: char) -> (r: Option<(String, String)>)
    ensures
        match r {
            Some(p) => cut_first(s@, c) == Some((p.0@, p.1@)),
            None => cut_first(s@, c) is None,
        },
{
    let v = chars_of(s);
    let mut i: usize = 0;
    assert(s@.skip(0) =~= s@);
    proof {
        lemma_cut(s@, c, 0);
    }
    while i < v.len()
        invariant
            i <= v@.len(),
            v@ == s@,
            forall|j: int| 0 <= j < i ==> s@[j] != c,
        decreases v@.len() - i,
    {
        if v[i] == c {
            proof {
                lemma_cut(s@, c, i as int);
                assert(s@.subrange(0, i as int) =~= s@.take(i as int));
                assert(s@.subrange(i as int + 1, s@.len() as int) =~= s@.skip(i as int + 1));
            }
            return Some((part_of(&v, 0, i), part_of(&v, i + 1, v.len())));
        }
        i += 1;
    }
    proof {
        lemma_cut(s@, c, i as int);
    }
    None
}

proof fn lemma_cut(s: Seq<char>, c: char, i: int)
    requires
        0 <= i <= s.len(),
        forall|j: int| 0 <= j < i ==> s[j] != c,
    ensures
        i < s.len() && s[i] == c ==> cut_first(s, c) == Some((s.take(i), s.skip(i + 1))),
        i == s.len() ==> cut_first(s, c) is None,
    decreases s.len(),
{
    if i > 0 {
        let t = s.drop_first();
        assert forall|j: int| 0 <= j < i - 1 implies t[j] != c by {
            assert(s[j + 1] != c);
        }
        lemma_cut(t, c, i - 1);
        if i < s.len() && s[i] == c {
            assert(t[i - 1] == c);
            assert(s.take(i) =~= seq![s[0]] + t.take(i - 1));
            assert(s.skip(i + 1) =~= t.skip(i));
        }
    } else if s.len() > 0 && s[0] == c {
        assert(s.take(0) =~= Seq::<char>::empty());
        assert(s.skip(1) =~= s.drop_first());
    }
}

/// The value of a decimal digit.
pub open spec fn digit_value(c: char) -> Option<nat> {
    if '0' <= c <= '9' {
        Some((c as u32 - '0' as u32) as nat)
    } else {
        None
    }
}

/// The number that digits stand for, if they are digits, at least one.
pub open spec fn digits_value(s: Seq<char>) -> Option<nat>
    decreases s.len(),
{
    if s.len() == 0 {
        None
    } else if s.len() == 1 {
        digit_value(s[0])
    } else {
        match (digits_value(s.drop_last()), digit_value(s.last())) {
            (Some(n), Some(d)) => Some((n * 10 + d) as nat),
            _ => None,
        }
    }
}

/// The number that a text stands for: digits, after a plus sign if there is
/// one, that fit in 64 bits.
pub open spec fn number_of(s: Seq<char>) -> Option<u64> {
    let d = if s.len() > 0 && s[0] == '+' {
        s.drop_first()
    } else {
        s
    };
    match digits_value(d) {
        Some(n) => if n <= u64::MAX {
            Some(n as u64)
        } else {
            None
        },
        None => None,
    }
}

/// The number that a text stands for: digits, after a sign if there is one,
/// that fit in 32 bits with sign.
pub open spec fn integer_of(s: Seq<char>) -> Option<i32> {
    if s.len() > 0 && s[0] == '-' {
        match digits_value(s.drop_first()) {
            Some(n) => if n <= 0x8000_0000 {
                Some((-(n as int)) as i32)
            } else {
                None
            },
            None => None,
        }
    } else {
        match number_of(s) {
            Some(n) => if n <= i32::MAX {
                Some(n as i32)
            } else {
                None
            },
            None => None,
        }
    }
}

proof fn lemma_digits_prefix(s: Seq<char>, i: int)
    requires
        1 <= i <= s.len(),
        digits_value(s.take(i)) is None,
    ensures
        digits_value(s) is None,
    decreases s.len() - i,
{
    if i < s.len() {
        assert(s.take(i + 1).drop_last() =~= s.take(i));
        lemma_digits_prefix(s, i + 1);
    } else {
        assert(s.take(i) =~= s);
    }
}

proof fn lemma_digits_grow(s: Seq<char>, i: int)
    requires
        1 <= i <= s.len(),
        digits_value(s) is Some,
        digits_value(s.take(i)) is Some,
    ensures
        digits_value(s.take(i))->0 <= digits_value(s)->0,
    decreases s.len() - i,
{
    if i < s.len() {
        assert(s.take(i + 1).drop_last() =~= s.take(i));
        if digits_value(s.take(i + 1)) is None {
            lemma_digits_prefix(s, i + 1);
        }
        lemma_digits_grow(s, i + 1);
    } else {
        assert(s.take(i) =~= s);
    }
}

/// The number that the digits from `from` on stand for, if it fits.
fn parse_digits(v: &Vec<char>, from: usize) -> (r: Option<u64>)
    requires
        from <= v@.len(),
    ensures
        match r {
            Some(n) => digits_value(v@.skip(from as int)) == Some(n as nat),
            None => match digits_value(v@.skip(from as int)) {
                Some(n) => n > u64::MAX,
                None => true,
            },
        },
{
    let ghost s = v@.skip(from as int);
    if from == v.len() {
        return None;
    }
    let mut n: u64 = 0;
    let mut i: usize = from;
    while i < v.len()
        invariant
            from <= i <= v@.len(),
            from < v@.len(),
            s == v@.skip(from as int),
            i > from ==> digits_value(s.take(i - from)) == Some(n as nat),
            i == from ==> n == 0,
        decreases v@.len() - i,
    {
        let c = v[i];
        let ghost k = i - from;
        proof {
            assert(s[k] == c);
            assert(s.take(k + 1).last() == c);
            assert(s.take(k + 1).drop_last() =~= s.take(k));
            if k == 0 {
                assert(s.take(1)[0] == c);
            }
        }
        if c < '0' || c > '9' {
            proof {
                assert(digits_value(s.take(k + 1)) is None);
                lemma_digits_prefix(s, k + 1);
            }
            return None;
        }
        let d: u64 = (c as u32 - '0' as u32) as u64;
        let ghost m = n * 10 + d;
        proof {
            assert(digits_value(s.take(k + 1)) == Some(m as nat));
        }
        if n > (u64::MAX - d) / 10 {
            proof {
                if digits_value(s) is Some {
                    lemma_digits_grow(s, k + 1);
                }
            }
            return None;
        }
        n = n * 10 + d;
        i += 1;
    }
    assert(s.take(s.len() as int) =~= s);
    Some(n)
}

/// The number that a text stands for.
pub fn parse_number(s: &str) -> (r: Option<u64>)
    ensures
        r == number_of(s@),
{
    let v = chars_of(s);
    if v.len() > 0 && v[0] == '+' {
        assert(v@.skip(1) =~= s@.drop_first());
        parse_digits(&v, 1)
    } else {
        assert(v@.skip(0) =~= s@);
        parse_digits(&v, 0)
    }
}

/// The signed number that a text stands for.
pub fn parse_integer(s: &str) -> (r: Option<i32>)
    ensures
        r == integer_of(s@),
{
    let v = chars_of(s);
    if v.len() > 0 && v[0] == '-' {
        assert(v@.skip(1) =~= s@.drop_first());
        match parse_digits(&v, 1) {
            Some(n) => if n <= 0x8000_0000 {
                Some((0i64 - n as i64) as i32)
            } else {
                None
            },
            None => None,
        }
    } else {
        match parse_number(s) {
            Some(n) => if n <= 0x7fff_ffff {
                Some(n as i32)
            } else {
                None
            },
            None => None,
        }
    }
}

} // verus!
