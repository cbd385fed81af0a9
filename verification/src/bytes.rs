//! Numbers as bytes, the most significant byte first.

use vstd::prelude::*;

verus! {

/// The last `n` base-256 digits of a number, the most significant first.
pub open spec fn be_digits(v: nat, n: nat) -> Seq<u8>
    decreases n,
{
    if n == 0 {
        Seq::empty()
    } else {
        be_digits(v / 256, (n - 1) as nat).push((v % 256) as u8)
    }
}

/// The number that base-256 digits stand for.
pub open spec fn be_value(s: Seq<u8>) -> nat
    decreases s.len(),
{
    if s.len() == 0 {
        0
    } else {
        be_value(s.drop_last()) * 256 + s.last() as nat
    }
}

/// `256` to the power of `n`.
pub open spec fn pow256(n: nat) -> nat
    decreases n,
{
    if n == 0 {
        1
    } else {
        256 * pow256((n - 1) as nat)
    }
}

pub proof fn lemma_be_len(v: nat, n: nat)
    ensures
        be_digits(v, n).len() == n,
    decreases n,
{
    if n > 0 {
        lemma_be_len(v / 256, (n - 1) as nat);
    }
}

/// Reading the digits of a number gives the number back.
pub proof fn lemma_be_round_trip(v: nat, n: nat)
    requires
        v < pow256(n),
    ensures
        be_value(be_digits(v, n)) == v,
    decreases n,
{
    if n > 0 {
        assert(v / 256 < pow256((n - 1) as nat)) by (nonlinear_arith)
            requires
                v < 256 * pow256((n - 1) as nat),
        ;
        lemma_be_round_trip(v / 256, (n - 1) as nat);
        assert(be_digits(v, n).drop_last() =~= be_digits(v / 256, (n - 1) as nat));
    }
}

/// Byte strings in dictionary order.
pub open spec fn bytes_lt(a: Seq<u8>, b: Seq<u8>) -> bool
    decreases a.len(),
{
    if b.len() == 0 {
        false
    } else if a.len() == 0 {
        true
    } else if a[0] != b[0] {
        a[0] < b[0]
    } else {
        bytes_lt(a.drop_first(), b.drop_first())
    }
}

/// Of two lists of the same length, how the order goes on after one more
/// byte each.
pub proof fn lemma_bytes_lt_push(a: Seq<u8>, b: Seq<u8>, x: u8, y: u8)
    requires
        a.len() == b.len(),
    ensures
        bytes_lt(a.push(x), b.push(y)) == (bytes_lt(a, b) || (a == b && x < y)),
    decreases a.len(),
{
    let p = a.push(x);
    let q = b.push(y);
    if a.len() == 0 {
        assert(a =~= b);
        assert(p.drop_first() =~= Seq::<u8>::empty());
        assert(q.drop_first() =~= Seq::<u8>::empty());
        assert(p[0] == x && q[0] == y);
        assert(!bytes_lt(p.drop_first(), q.drop_first()));
        assert(!bytes_lt(a, b));
    } else {
        assert(p[0] == a[0] && q[0] == b[0]);
        if a[0] == b[0] {
            lemma_bytes_lt_push(a.drop_first(), b.drop_first(), x, y);
            assert(p.drop_first() =~= a.drop_first().push(x));
            assert(q.drop_first() =~= b.drop_first().push(y));
            assert((a.drop_first() == b.drop_first()) == (a == b)) by {
                if a.drop_first() == b.drop_first() {
                    assert(a =~= seq![a[0]] + a.drop_first());
                    assert(b =~= seq![b[0]] + b.drop_first());
                }
            }
        }
    }
}

/// A common beginning does not count for the order.
pub proof fn lemma_bytes_lt_prefix(p: Seq<u8>, a: Seq<u8>, b: Seq<u8>)
    ensures
        bytes_lt(p + a, p + b) == bytes_lt(a, b),
    decreases p.len(),
{
    if p.len() == 0 {
        assert(p + a =~= a);
        assert(p + b =~= b);
    } else {
        assert((p + a)[0] == p[0] && (p + b)[0] == p[0]);
        assert((p + a).drop_first() =~= p.drop_first() + a);
        assert((p + b).drop_first() =~= p.drop_first() + b);
        lemma_bytes_lt_prefix(p.drop_first(), a, b);
    }
}

/// What follows does not count for the order once it is decided; where the
/// first parts, of the same length, are equal, it decides.
pub proof fn lemma_bytes_lt_tail(a: Seq<u8>, b: Seq<u8>, x: Seq<u8>, y: Seq<u8>)
    requires
        a.len() == b.len(),
    ensures
        bytes_lt(a + x, b + y) == (bytes_lt(a, b) || (a == b && bytes_lt(x, y))),
    decreases a.len(),
{
    if a.len() == 0 {
        assert(a =~= b);
        assert(a + x =~= x);
        assert(b + y =~= y);
    } else {
        assert((a + x)[0] == a[0] && (b + y)[0] == b[0]);
        if a[0] == b[0] {
            lemma_bytes_lt_tail(a.drop_first(), b.drop_first(), x, y);
            assert((a + x).drop_first() =~= a.drop_first() + x);
            assert((b + y).drop_first() =~= b.drop_first() + y);
            if a.drop_first() == b.drop_first() {
                assert(a =~= seq![a[0]] + a.drop_first());
                assert(b =~= seq![b[0]] + b.drop_first());
            }
        }
    }
}

/// Digits order as the numbers that they stand for.
pub proof fn lemma_be_order(v: nat, w: nat, n: nat)
    requires
        v < pow256(n),
        w < pow256(n),
    ensures
        bytes_lt(be_digits(v, n), be_digits(w, n)) == (v < w),
        be_digits(v, n) == be_digits(w, n) ==> v == w,
    decreases n,
{
    lemma_be_round_trip(v, n);
    lemma_be_round_trip(w, n);
    if n > 0 {
        let m = (n - 1) as nat;
        assert(v / 256 < pow256(m) && w / 256 < pow256(m)) by (nonlinear_arith)
            requires
                v < 256 * pow256(m),
                w < 256 * pow256(m),
        ;
        lemma_be_order(v / 256, w / 256, m);
        lemma_be_len(v / 256, m);
        lemma_be_len(w / 256, m);
        lemma_bytes_lt_push(
            be_digits(v / 256, m),
            be_digits(w / 256, m),
            (v % 256) as u8,
            (w % 256) as u8,
        );
    }
}

/// All 64-bit numbers have eight digits.
pub proof fn lemma_u64_digits(v: u64)
    ensures
        (v as nat) < pow256(8),
{
    reveal_with_fuel(pow256, 9);
}

fn digits(v: u64, n: usize) -> (r: Vec<u8>)
    ensures
        r@ == be_digits(v as nat, n as nat),
    decreases n,
{
    if n == 0 {
        let r: Vec<u8> = Vec::new();
        assert(r@ =~= Seq::<u8>::empty());
        r
    } else {
        let mut r = digits(v / 256, n - 1);
        r.push((v % 256) as u8);
        r
    }
}

/// A number as eight bytes, the most significant first.
pub fn to_be(v: u64) -> (r: Vec<u8>)
    ensures
        r@ == be_digits(v as nat, 8),
        r@.len() == 8,
{
    proof {
        lemma_be_len(v as nat, 8);
    }
    digits(v, 8)
}

proof fn lemma_be_bound(s: Seq<u8>)
    ensures
        be_value(s) < pow256(s.len()),
    decreases s.len(),
{
    if s.len() > 0 {
        lemma_be_bound(s.drop_last());
        assert(be_value(s.drop_last()) * 256 + s.last() < 256 * pow256((s.len() - 1) as nat))
            by (nonlinear_arith)
            requires
                be_value(s.drop_last()) < pow256((s.len() - 1) as nat),
                s.last() < 256,
        ;
    }
}

/// The number that eight bytes stand for; nothing for any other count.
pub fn from_be(s: &[u8]) -> (r: Option<u64>)
    ensures
        match r {
            Some(v) => s@.len() == 8 && v == be_value(s@),
            None => s@.len() != 8,
        },
{
    if s.len() != 8 {
        return None;
    }
    let mut v: u64 = 0;
    let mut i: usize = 0;
    assert(s@.take(0) =~= Seq::<u8>::empty());
    while i < 8
        invariant
            i <= 8,
            s@.len() == 8,
            v == be_value(s@.take(i as int)),
        decreases 8 - i,
    {
        proof {
            lemma_be_bound(s@.take(i as int + 1));
            reveal_with_fuel(pow256, 9);
            assert(s@.take(i as int + 1).drop_last() =~= s@.take(i as int));
            assert(s@.take(i as int + 1).last() == s@[i as int]);
            assert(v * 256 + s@[i as int] <= u64::MAX);
        }
        v = v * 256 + s[i] as u64;
        i += 1;
    }
    assert(s@.take(8) =~= s@);
    Some(v)
}

} // verus!
