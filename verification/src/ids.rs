//! Random identifiers.

use crate::text::chars_of;
use uuid::Uuid;
use vstd::prelude::*;

verus! {

/// A lower-case hexadecimal digit.
pub open spec fn is_hex(c: char) -> bool {
    '0' <= c <= '9' || 'a' <= c <= 'f'
}

/// The positions of the hyphens in an identifier.
pub open spec fn is_hyphen_pos(i: int) -> bool {
    i == 8 || i == 13 || i == 18 || i == 23
}

/// The written form of an identifier: 36 characters, hexadecimal digits in
/// groups of 8, 4, 4, 4 and 12 with hyphens between them.
pub open spec fn is_uuid(s: Seq<char>) -> bool {
    &&& s.len() == 36
    &&& forall|i: int|
        0 <= i < 36 ==> if is_hyphen_pos(i) {
            (#[trigger] s[i]) == '-'
        } else {
            is_hex(s[i])
        }
}

/// A random identifier, made by `Uuid::new_v4` and written by its `Display`:
/// 36 characters, hyphens at positions 8, 13, 18 and 23, lower-case
/// hexadecimal digits everywhere else. Which digits is left to chance.
#[verifier::external_body]
fn random_uuid() -> (r: String)
    ensures
        is_uuid(r@),
{
    Uuid::new_v4().to_string()
}

/// A random identifier.
pub fn new_id() -> (r: String)
    ensures
        is_uuid(r@),
{
    random_uuid()
}

/// The text before the first hyphen.
pub open spec fn before_hyphen(s: Seq<char>) -> Seq<char>
    decreases s.len(),
{
    if s.len() == 0 || s[0] == '-' {
        Seq::empty()
    } else {
        seq![s[0]] + before_hyphen(s.drop_first())
    }
}

/// The text without its hyphens.
pub open spec fn without_hyphens(s: Seq<char>) -> Seq<char>
    decreases s.len(),
{
    if s.len() == 0 {
        Seq::empty()
    } else if s.last() == '-' {
        without_hyphens(s.drop_last())
    } else {
        without_hyphens(s.drop_last()).push(s.last())
    }
}

/// The text before the first hyphen.
pub fn first_group(s: &str) -> (r: String)
    ensures
        r@ == before_hyphen(s@),
{
    let v = chars_of(s);
    let mut r = String::new();
    let mut i: usize = 0;
    assert(s@.skip(0) =~= s@);
    assert(r@ + before_hyphen(s@) =~= before_hyphen(s@));
    while i < v.len() && v[i] != '-'
        invariant
            i <= v@.len(),
            v@ == s@,
            before_hyphen(s@) == r@ + before_hyphen(s@.skip(i as int)),
        decreases v@.len() - i,
    {
        let ghost rv = r@;
        let ghost rest = s@.skip(i as int);
        r.push(v[i]);
        proof {
            assert(rest[0] == s@[i as int]);
            assert(rest.drop_first() =~= s@.skip(i as int + 1));
            assert(rv + (seq![rest[0]] + before_hyphen(rest.drop_first())) =~= r@ + before_hyphen(
                s@.skip(i as int + 1),
            ));
        }
        i += 1;
    }
    proof {
        let rest = s@.skip(i as int);
        if i < v@.len() {
            assert(rest[0] == s@[i as int]);
        }
        assert(r@ + Seq::<char>::empty() =~= r@);
    }
    r
}

/// The text without its hyphens.
pub fn strip_hyphens(s: &str) -> (r: String)
    ensures
        r@ == without_hyphens(s@),
{
    let v = chars_of(s);
    let mut r = String::new();
    let mut i: usize = 0;
    assert(s@.take(0) =~= Seq::<char>::empty());
    while i < v.len()
        invariant
            i <= v@.len(),
            v@ == s@,
            r@ == without_hyphens(s@.take(i as int)),
        decreases v@.len() - i,
    {
        proof {
            assert(s@.take(i as int + 1).drop_last() =~= s@.take(i as int));
            assert(s@.take(i as int + 1).last() == s@[i as int]);
        }
        if v[i] != '-' {
            r.push(v[i]);
        }
        i += 1;
    }
    assert(s@.take(s@.len() as int) =~= s@);
    r
}

proof fn lemma_without_hyphens_add(a: Seq<char>, b: Seq<char>)
    ensures
        without_hyphens(a + b) == without_hyphens(a) + without_hyphens(b),
    decreases b.len(),
{
    if b.len() == 0 {
        assert(a + b =~= a);
        assert(without_hyphens(a) + Seq::<char>::empty() =~= without_hyphens(a));
    } else {
        assert((a + b).drop_last() =~= a + b.drop_last());
        assert((a + b).last() == b.last());
        lemma_without_hyphens_add(a, b.drop_last());
        if b.last() != '-' {
            assert(without_hyphens(a) + without_hyphens(b) =~= (without_hyphens(a)
                + without_hyphens(b.drop_last())).push(b.last()));
        }
    }
}

proof fn lemma_no_hyphens(s: Seq<char>)
    requires
        forall|i: int| 0 <= i < s.len() ==> s[i] != '-',
    ensures
        without_hyphens(s) == s,
    decreases s.len(),
{
    if s.len() > 0 {
        lemma_no_hyphens(s.drop_last());
        assert(s.drop_last().push(s.last()) =~= s);
    } else {
        assert(s =~= Seq::<char>::empty());
    }
}

/// The first sixteen digits of an identifier stand in its first three groups.
pub proof fn lemma_first_digits(s: Seq<char>)
    requires
        is_uuid(s),
    ensures
        without_hyphens(s).len() >= 16,
        without_hyphens(s).take(16) == s.subrange(0, 8) + s.subrange(9, 13) + s.subrange(14, 18),
{
    let a = s.subrange(0, 8);
    let b = s.subrange(9, 13);
    let c = s.subrange(14, 18);
    let rest = s.subrange(19, 36);
    let h = seq!['-'];
    assert forall|i: int| 0 <= i < 8 implies a[i] != '-' by {
        assert(is_hex(s[i]));
    }
    assert forall|i: int| 0 <= i < 4 implies b[i] != '-' by {
        assert(is_hex(s[i + 9]));
    }
    assert forall|i: int| 0 <= i < 4 implies c[i] != '-' by {
        assert(is_hex(s[i + 14]));
    }
    lemma_no_hyphens(a);
    lemma_no_hyphens(b);
    lemma_no_hyphens(c);
    reveal_with_fuel(without_hyphens, 2);
    assert(h.last() == '-');
    assert(h.drop_last() =~= Seq::<char>::empty());
    assert(without_hyphens(h) =~= Seq::<char>::empty());
    assert(s =~= a + (h + (b + (h + (c + (h + rest))))));
    lemma_without_hyphens_add(h, rest);
    lemma_without_hyphens_add(c, h + rest);
    lemma_without_hyphens_add(h, c + (h + rest));
    lemma_without_hyphens_add(b, h + (c + (h + rest)));
    lemma_without_hyphens_add(h, b + (h + (c + (h + rest))));
    lemma_without_hyphens_add(a, h + (b + (h + (c + (h + rest)))));
    let w = without_hyphens(rest);
    assert(without_hyphens(s) =~= a + b + c + w);
    assert((a + b + c + w).take(16) =~= a + b + c);
}

} // verus!
