//! White space and letter case.

use crate::parse::{joined, join_texts, part_of};
use crate::text::chars_of;
use vstd::prelude::*;
use vstd::utf8::*;

verus! {

/// What `char::is_whitespace` says of a character.
pub uninterp spec fn is_white(c: char) -> bool;

/// Whether a character is white space, by `char::is_whitespace`: a space and
/// a line break are. Of other characters the answer has just a name.
#[verifier::external_body]
fn white(c: char) -> (r: bool)
    ensures
        r == is_white(c),
        c == ' ' || c == '\n' ==> r,
{
    c.is_whitespace()
}

/// An ASCII letter in lower case; any other character as it is.
pub open spec fn ascii_lower(c: char) -> char {
    if 'A' <= c <= 'Z' {
        ((c as u32 + 32) as u8) as char
    } else {
        c
    }
}

/// An ASCII letter in upper case; any other character as it is.
pub open spec fn ascii_upper(c: char) -> char {
    if 'a' <= c <= 'z' {
        ((c as u32 - 32) as u8) as char
    } else {
        c
    }
}

/// What `str::to_lowercase` makes of a text.
pub uninterp spec fn lowercase(s: Seq<char>) -> Seq<char>;

/// The text in lower case, by `str::to_lowercase`: of a text in ASCII, each
/// letter in lower case. Of another text the result has just a name.
#[verifier::external_body]
fn lower(s: &str) -> (r: String)
    ensures
        r@ == lowercase(s@),
        is_ascii_chars(s@) ==> r@ == s@.map_values(|c: char| ascii_lower(c)),
{
    s.to_lowercase()
}

/// What `str::to_uppercase` makes of a text.
pub uninterp spec fn uppercase(s: Seq<char>) -> Seq<char>;

/// The text in upper case, by `str::to_uppercase`: of a text in ASCII, each
/// letter in upper case. Of another text the result has just a name.
#[verifier::external_body]
fn upper(s: &str) -> (r: String)
    ensures
        r@ == uppercase(s@),
        is_ascii_chars(s@) ==> r@ == s@.map_values(|c: char| ascii_upper(c)),
{
    s.to_uppercase()
}

/// The text in upper case.
pub fn to_upper(s: &str) -> (r: String)
    ensures
        r@ == uppercase(s@),
        is_ascii_chars(s@) ==> r@ == s@.map_values(|c: char| ascii_upper(c)),
{
    upper(s)
}

/// The text in lower case.
pub fn to_lower(s: &str) -> (r: String)
    ensures
        r@ == lowercase(s@),
        is_ascii_chars(s@) ==> r@ == s@.map_values(|c: char| ascii_lower(c)),
{
    lower(s)
}

/// The text without white space at its beginning.
pub open spec fn white_start(s: Seq<char>) -> Seq<char>
    decreases s.len(),
{
    if s.len() > 0 && is_white(s[0]) {
        white_start(s.drop_first())
    } else {
        s
    }
}

/// The text without white space at its end.
pub open spec fn white_end(s: Seq<char>) -> Seq<char>
    decreases s.len(),
{
    if s.len() > 0 && is_white(s.last()) {
        white_end(s.drop_last())
    } else {
        s
    }
}

/// The text without white space at its beginning and its end.
pub open spec fn trimmed(s: Seq<char>) -> Seq<char> {
    white_end(white_start(s))
}

/// The text without white space at its beginning and its end.
pub fn trim(s: &str) -> (r: String)
    ensures
        r@ == trimmed(s@),
{
    let v = chars_of(s);
    let mut a: usize = 0;
    assert(s@.skip(0) =~= s@);
    while a < v.len() && white(v[a])
        invariant
            a <= v@.len(),
            v@ == s@,
            white_start(s@) == white_start(s@.skip(a as int)),
        decreases v@.len() - a,
    {
        proof {
            assert(s@.skip(a as int)[0] == s@[a as int]);
            assert(s@.skip(a as int).drop_first() =~= s@.skip(a as int + 1));
        }
        a += 1;
    }
    let mut b: usize = v.len();
    let ghost t = s@.skip(a as int);
    proof {
        if a < v@.len() {
            assert(t[0] == s@[a as int]);
        }
        assert(white_start(s@) == t);
        assert(s@.subrange(a as int, b as int) =~= t);
    }
    while b > a && white(v[b - 1])
        invariant
            a <= b <= v@.len(),
            v@ == s@,
            white_end(t) == white_end(s@.subrange(a as int, b as int)),
        decreases b - a,
    {
        proof {
            assert(s@.subrange(a as int, b as int).last() == s@[b as int - 1]);
            assert(s@.subrange(a as int, b as int).drop_last() =~= s@.subrange(
                a as int,
                b as int - 1,
            ));
        }
        b -= 1;
    }
    proof {
        if b > a {
            assert(s@.subrange(a as int, b as int).last() == s@[b as int - 1]);
        }
    }
    part_of(&v, a, b)
}

/// The words of a text so far, and the one that is not finished.
pub open spec fn words_and_rest(s: Seq<char>) -> (Seq<Seq<char>>, Seq<char>)
    decreases s.len(),
{
    if s.len() == 0 {
        (Seq::empty(), Seq::empty())
    } else {
        let (w, r) = words_and_rest(s.drop_last());
        if !is_white(s.last()) {
            (w, r.push(s.last()))
        } else if r.len() == 0 {
            (w, r)
        } else {
            (w.push(r), Seq::empty())
        }
    }
}

/// The words of a text: what stands between white space.
pub open spec fn words(s: Seq<char>) -> Seq<Seq<char>> {
    let (w, r) = words_and_rest(s);
    if r.len() == 0 {
        w
    } else {
        w.push(r)
    }
}

/// The words of a text.
pub fn words_of(s: &str) -> (out: Vec<String>)
    ensures
        out.deep_view() == words(s@),
{
    let v = chars_of(s);
    let mut w: Vec<String> = Vec::new();
    let mut r: Vec<char> = Vec::new();
    let mut i: usize = 0;
    assert(s@.take(0) =~= Seq::<char>::empty());
    assert(w.deep_view() =~= Seq::<Seq<char>>::empty());
    while i < v.len()
        invariant
            i <= v@.len(),
            v@ == s@,
            (w.deep_view(), r@) == words_and_rest(s@.take(i as int)),
        decreases v@.len() - i,
    {
        let ghost wv = w.deep_view();
        proof {
            assert(s@.take(i as int + 1).drop_last() =~= s@.take(i as int));
            assert(s@.take(i as int + 1).last() == s@[i as int]);
        }
        if !white(v[i]) {
            r.push(v[i]);
        } else if r.len() > 0 {
            let word = crate::text::string_of(r.as_slice());
            w.push(word);
            assert(w.deep_view() =~= wv.push(r@));
            r = Vec::new();
            assert(r@ =~= Seq::<char>::empty());
        } else {
            assert(r@ =~= Seq::<char>::empty());
        }
        i += 1;
    }
    assert(s@.take(s@.len() as int) =~= s@);
    if r.len() > 0 {
        let ghost wv = w.deep_view();
        let word = crate::text::string_of(r.as_slice());
        w.push(word);
        assert(w.deep_view() =~= wv.push(r@));
    }
    w
}

/// The words of a text with one space between them.
pub fn squeeze(s: &str) -> (r: String)
    ensures
        r@ == joined(words(s@), " "@),
{
    let w = words_of(s);
    join_texts(&w, " ")
}

} // verus!
