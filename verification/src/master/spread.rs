//! What placement promises: as many servers as asked for, each of them once,
//! spread over the racks.

use crate::master::placement::{
    in_rack, lemma_racks_distinct, placement, rack_key, racks, rank_of, ranked, round, rounds,
    spots, Spot,
};
use crate::master::types::StatusView;
use vstd::prelude::*;

verus! {

/// The servers have different addresses.
pub open spec fn distinct(servers: Seq<(Seq<char>, StatusView)>) -> bool {
    forall|i: int, j: int|
        0 <= i < j < servers.len() ==> (#[trigger] servers[i]).0 != (#[trigger] servers[j]).0
}

/// The address is that of one of the servers.
pub open spec fn known(servers: Seq<(Seq<char>, StatusView)>, addr: Seq<char>) -> bool {
    exists|i: int| 0 <= i < servers.len() && (#[trigger] servers[i]).0 == addr
}

/// The address is that of a server in the rack.
pub open spec fn stands_in(
    servers: Seq<(Seq<char>, StatusView)>,
    addr: Seq<char>,
    rack: Seq<char>,
) -> bool {
    exists|i: int|
        0 <= i < servers.len() && (#[trigger] servers[i]).0 == addr && rack_key(
            addr,
            servers[i].1.rack_id,
        ) == rack
}

/// The servers have different addresses.
spec fn apart(c: Seq<Spot>) -> bool {
    forall|i: int, j: int| 0 <= i < j < c.len() ==> (#[trigger] c[i]).addr != (#[trigger] c[j]).addr
}

/// How many of the servers the first `r` rounds over the given racks take.
spec fn taken(c: Seq<Spot>, over: Seq<Seq<char>>, r: int) -> int
    decreases over.len(),
{
    if over.len() == 0 {
        0
    } else {
        let n = in_rack(c, over.last()).len();
        taken(c, over.drop_last(), r) + if r < n {
            r
        } else {
            n as int
        }
    }
}

proof fn lemma_taken_step(c: Seq<Spot>, over: Seq<Seq<char>>, r: int)
    requires
        r >= 0,
    ensures
        taken(c, over, r + 1) == taken(c, over, r) + round(c, over, r).len(),
    decreases over.len(),
{
    if over.len() > 0 {
        lemma_taken_step(c, over.drop_last(), r);
    }
}

proof fn lemma_rounds_len(c: Seq<Spot>, r: int)
    requires
        r >= 0,
    ensures
        rounds(c, r).len() == taken(c, racks(c), r),
    decreases r,
{
    if r > 0 {
        lemma_rounds_len(c, r - 1);
        lemma_taken_step(c, racks(c), r - 1);
    } else {
        lemma_taken_zero(c, racks(c));
    }
}

proof fn lemma_taken_zero(c: Seq<Spot>, over: Seq<Seq<char>>)
    ensures
        taken(c, over, 0) == 0,
    decreases over.len(),
{
    if over.len() > 0 {
        lemma_taken_zero(c, over.drop_last());
    }
}

proof fn lemma_in_rack_len(c: Seq<Spot>, rack: Seq<char>)
    ensures
        in_rack(c, rack).len() <= c.len(),
    decreases c.len(),
{
    if c.len() > 0 {
        lemma_in_rack_len(c.drop_last(), rack);
    }
}

/// One more server in a rack that is not among `over` takes nothing.
proof fn lemma_taken_other(c: Seq<Spot>, over: Seq<Seq<char>>, r: int)
    requires
        c.len() > 0,
        !over.contains(c.last().rack),
    ensures
        taken(c, over, r) == taken(c.drop_last(), over, r),
    decreases over.len(),
{
    if over.len() > 0 {
        assert(over[over.len() - 1] == over.last());
        assert(!over.drop_last().contains(c.last().rack)) by {
            if over.drop_last().contains(c.last().rack) {
                let i = over.drop_last().index_of(c.last().rack);
                assert(over[i] == c.last().rack);
            }
        }
        lemma_taken_other(c, over.drop_last(), r);
    }
}

/// One more server in a rack that is among `over` is taken in time.
proof fn lemma_taken_own(c: Seq<Spot>, over: Seq<Seq<char>>, r: int)
    requires
        c.len() > 0,
        r >= c.len(),
        over.no_duplicates(),
        over.contains(c.last().rack),
    ensures
        taken(c, over, r) == taken(c.drop_last(), over, r) + 1,
    decreases over.len(),
{
    let last = over.last();
    let front = over.drop_last();
    assert(over.len() > 0);
    lemma_in_rack_len(c, last);
    lemma_in_rack_len(c.drop_last(), last);
    if last == c.last().rack {
        assert(!front.contains(c.last().rack)) by {
            if front.contains(c.last().rack) {
                let i = front.index_of(c.last().rack);
                assert(over[i] == over[over.len() - 1]);
            }
        }
        lemma_taken_other(c, front, r);
    } else {
        let i = over.index_of(c.last().rack);
        assert(front[i] == c.last().rack);
        lemma_taken_own(c, front, r);
    }
}

proof fn lemma_all_taken(c: Seq<Spot>, r: int)
    requires
        r >= c.len(),
    ensures
        taken(c, racks(c), r) == c.len(),
    decreases c.len(),
{
    if c.len() > 0 {
        let d = c.drop_last();
        let k = c.last().rack;
        lemma_all_taken(d, r);
        lemma_racks_distinct(d);
        lemma_racks_distinct(c);
        if racks(d).contains(k) {
            lemma_taken_own(c, racks(d), r);
        } else {
            let over = racks(d).push(k);
            assert(over[racks(d).len() as int] == k);
            lemma_taken_own(c, over, r);
            assert(over.drop_last() =~= racks(d));
            lemma_absent(d, k);
        }
    }
}

proof fn lemma_absent(c: Seq<Spot>, rack: Seq<char>)
    requires
        !racks(c).contains(rack),
    ensures
        in_rack(c, rack).len() == 0,
    decreases c.len(),
{
    if c.len() > 0 {
        lemma_racks_contain(c, rack);
        lemma_absent(c.drop_last(), rack);
    }
}

/// The racks are those of the servers but the last, and its rack.
proof fn lemma_racks_contain(c: Seq<Spot>, rack: Seq<char>)
    requires
        c.len() > 0,
    ensures
        racks(c).contains(rack) == (racks(c.drop_last()).contains(rack) || c.last().rack == rack),
{
    let r = racks(c.drop_last());
    let k = c.last().rack;
    if !r.contains(k) {
        let s = r.push(k);
        assert(s[r.len() as int] == k);
        if r.contains(rack) {
            assert(s[r.index_of(rack)] == rack);
        }
        if s.contains(rack) && rack != k {
            assert(r[s.index_of(rack)] == rack);
        }
    }
}

/// The address at a position in a rack is that of a server in that rack.
proof fn lemma_in_rack(c: Seq<Spot>, rack: Seq<char>, i: int) -> (p: int)
    requires
        0 <= i < in_rack(c, rack).len(),
    ensures
        0 <= p < c.len(),
        c[p].rack == rack,
        c[p].addr == in_rack(c, rack)[i],
    decreases c.len(),
{
    if c.last().rack == rack && i == in_rack(c, rack).len() - 1 {
        c.len() - 1
    } else {
        lemma_in_rack(c.drop_last(), rack, i)
    }
}

proof fn lemma_in_rack_distinct(c: Seq<Spot>, rack: Seq<char>)
    requires
        apart(c),
    ensures
        in_rack(c, rack).no_duplicates(),
    decreases c.len(),
{
    if c.len() > 0 {
        let d = c.drop_last();
        lemma_in_rack_distinct(d, rack);
        let m = in_rack(d, rack);
        assert forall|i: int| 0 <= i < m.len() implies m[i] != c.last().addr by {
            let p = lemma_in_rack(d, rack, i);
            assert(c[p].addr != c[c.len() - 1].addr);
        }
    }
}

/// The address is taken in round `r` from the rack.
spec fn taken_at(c: Seq<Spot>, addr: Seq<char>, rack: Seq<char>, r: int) -> bool {
    0 <= r < in_rack(c, rack).len() && in_rack(c, rack)[r] == addr
}

/// With different addresses, rack and round are determined.
proof fn lemma_taken_once(
    c: Seq<Spot>,
    addr: Seq<char>,
    k1: Seq<char>,
    r1: int,
    k2: Seq<char>,
    r2: int,
)
    requires
        apart(c),
        taken_at(c, addr, k1, r1),
        taken_at(c, addr, k2, r2),
    ensures
        k1 == k2,
        r1 == r2,
{
    let p1 = lemma_in_rack(c, k1, r1);
    let p2 = lemma_in_rack(c, k2, r2);
    assert(p1 == p2);
    lemma_in_rack_distinct(c, k1);
}

/// Which rack the address at a position of a round comes from.
proof fn lemma_round_from(c: Seq<Spot>, over: Seq<Seq<char>>, r: int, i: int) -> (k: Seq<char>)
    requires
        r >= 0,
        0 <= i < round(c, over, r).len(),
    ensures
        over.contains(k),
        taken_at(c, round(c, over, r)[i], k, r),
    decreases over.len(),
{
    let before = round(c, over.drop_last(), r);
    if i < before.len() {
        let k = lemma_round_from(c, over.drop_last(), r, i);
        assert(over[over.drop_last().index_of(k)] == k);
        assert(round(c, over, r)[i] == before[i]);
        k
    } else {
        assert(over[over.len() - 1] == over.last());
        over.last()
    }
}

proof fn lemma_round_distinct(c: Seq<Spot>, over: Seq<Seq<char>>, r: int)
    requires
        apart(c),
        r >= 0,
        over.no_duplicates(),
    ensures
        round(c, over, r).no_duplicates(),
    decreases over.len(),
{
    if over.len() > 0 {
        let front = over.drop_last();
        lemma_round_distinct(c, front, r);
        let before = round(c, front, r);
        let m = in_rack(c, over.last());
        if r < m.len() {
            assert forall|i: int| 0 <= i < before.len() implies before[i] != m[r] by {
                let k = lemma_round_from(c, front, r, i);
                if before[i] == m[r] {
                    lemma_taken_once(c, m[r], k, r, over.last(), r);
                    assert(over[front.index_of(k)] == over[over.len() - 1]);
                }
            }
        }
    }
}

/// From which rack and in which round the address at a position comes.
proof fn lemma_rounds_from(c: Seq<Spot>, r: int, i: int) -> (from: (Seq<char>, int))
    requires
        0 <= i < rounds(c, r).len(),
    ensures
        from.1 < r,
        racks(c).contains(from.0),
        taken_at(c, rounds(c, r)[i], from.0, from.1),
    decreases r,
{
    let before = rounds(c, r - 1);
    if i < before.len() {
        lemma_rounds_from(c, r - 1, i)
    } else {
        let k = lemma_round_from(c, racks(c), r - 1, i - before.len());
        (k, r - 1)
    }
}

proof fn lemma_rounds_distinct(c: Seq<Spot>, r: int)
    requires
        apart(c),
        r >= 0,
    ensures
        rounds(c, r).no_duplicates(),
    decreases r,
{
    if r > 0 {
        let a = rounds(c, r - 1);
        let b = round(c, racks(c), r - 1);
        lemma_rounds_distinct(c, r - 1);
        lemma_racks_distinct(c);
        lemma_round_distinct(c, racks(c), r - 1);
        assert forall|i: int, j: int| 0 <= i < a.len() && 0 <= j < b.len() implies a[i]
            != b[j] by {
            if a[i] == b[j] {
                let f = lemma_rounds_from(c, r - 1, i);
                let k = lemma_round_from(c, racks(c), r - 1, j);
                lemma_taken_once(c, a[i], f.0, f.1, k, r - 1);
            }
        }
        let s = a + b;
        assert forall|i: int, j: int| 0 <= i < j < s.len() implies s[i] != s[j] by {
            if i < a.len() && j >= a.len() {
                assert(s[j] == b[j - a.len()]);
            } else if i >= a.len() {
                assert(s[i] == b[i - a.len()] && s[j] == b[j - a.len()]);
            }
        }
    }
}

/// The first round takes one server of each rack, in the order of the racks.
proof fn lemma_first_round(c: Seq<Spot>, over: Seq<Seq<char>>)
    requires
        forall|i: int| 0 <= i < over.len() ==> in_rack(c, #[trigger] over[i]).len() > 0,
    ensures
        round(c, over, 0).len() == over.len(),
        forall|i: int|
            0 <= i < over.len() ==> (#[trigger] round(c, over, 0)[i]) == in_rack(c, over[i])[0],
    decreases over.len(),
{
    if over.len() > 0 {
        let front = over.drop_last();
        assert forall|i: int| 0 <= i < front.len() implies in_rack(c, #[trigger] front[i]).len()
            > 0 by {
            assert(front[i] == over[i]);
        }
        lemma_first_round(c, front);
        assert(in_rack(c, over[over.len() - 1]).len() > 0);
    }
}

proof fn lemma_rack_inhabited(c: Seq<Spot>, rack: Seq<char>)
    requires
        racks(c).contains(rack),
    ensures
        in_rack(c, rack).len() > 0,
    decreases c.len(),
{
    if c.len() > 0 {
        lemma_racks_contain(c, rack);
        if c.last().rack != rack {
            lemma_rack_inhabited(c.drop_last(), rack);
        }
    } else {
        assert(racks(c).len() == 0);
    }
}

proof fn lemma_rounds_begin(c: Seq<Spot>, r: int)
    requires
        r >= 1,
    ensures
        rounds(c, r).len() >= rounds(c, 1).len(),
        rounds(c, r).take(rounds(c, 1).len() as int) == rounds(c, 1),
    decreases r,
{
    let n = rounds(c, 1).len() as int;
    if r > 1 {
        lemma_rounds_begin(c, r - 1);
        assert(rounds(c, r).take(n) =~= rounds(c, r - 1).take(n));
    } else {
        assert(rounds(c, 1).take(n) =~= rounds(c, 1));
    }
}

proof fn lemma_rank_bound(c: Seq<Spot>, space: u64)
    ensures
        rank_of(c, space) <= c.len(),
        forall|j: int| 0 <= j < rank_of(c, space) ==> (#[trigger] c[j]).space >= space,
        rank_of(c, space) < c.len() ==> c[rank_of(c, space) as int].space < space,
    decreases c.len(),
{
    if c.len() > 0 && c[0].space >= space {
        let d = c.drop_first();
        lemma_rank_bound(d, space);
        assert forall|j: int| 0 <= j < rank_of(c, space) implies (#[trigger] c[j]).space
            >= space by {
            if j > 0 {
                assert(d[j - 1] == c[j]);
            }
        }
        if rank_of(c, space) < c.len() {
            assert(d[rank_of(d, space) as int] == c[rank_of(c, space) as int]);
        }
    }
}

/// Ranking keeps the servers, and puts those with more space first.
proof fn lemma_ranked(c: Seq<Spot>)
    ensures
        ranked(c).len() == c.len(),
        ranked(c).to_multiset() == c.to_multiset(),
        forall|i: int, j: int|
            0 <= i < j < c.len() ==> (#[trigger] ranked(c)[i]).space >= (#[trigger] ranked(
                c,
            )[j]).space,
    decreases c.len(),
{
    broadcast use vstd::seq_lib::group_to_multiset_ensures;

    if c.len() > 0 {
        let d = c.drop_last();
        lemma_ranked(d);
        let r = ranked(d);
        let x = c.last();
        let p = rank_of(r, x.space) as int;
        lemma_rank_bound(r, x.space);
        assert(c =~= d.push(x));
        assert(r.insert(p, x).to_multiset() == r.to_multiset().insert(x)) by {
            vstd::seq_lib::to_multiset_insert(r, p, x);
        }
        let s = r.insert(p, x);
        assert forall|i: int, j: int| 0 <= i < j < s.len() implies (#[trigger] s[i]).space >= (
        #[trigger] s[j]).space by {
            let a = if i < p {
                i
            } else {
                i - 1
            };
            let b = if j < p {
                j
            } else {
                j - 1
            };
            if j == p {
                assert(s[i] == r[i]);
            } else if i == p {
                assert(s[j] == r[b]);
                assert(r[p].space < x.space);
                if b > p {
                    assert(r[p].space >= r[b].space);
                }
            } else {
                assert(s[i] == r[a] && s[j] == r[b]);
            }
        }
    }
}

proof fn lemma_ranked_member(c: Seq<Spot>, x: Spot)
    ensures
        ranked(c).contains(x) == c.contains(x),
{
    lemma_ranked(c);
    c.to_multiset_ensures();
    ranked(c).to_multiset_ensures();
    assert((c.to_multiset().count(x) > 0) == (ranked(c).to_multiset().count(x) > 0));
}

proof fn lemma_ranked_apart(c: Seq<Spot>)
    requires
        apart(c),
    ensures
        apart(ranked(c)),
    decreases c.len(),
{
    if c.len() > 0 {
        let d = c.drop_last();
        let x = c.last();
        let r = ranked(d);
        let p = rank_of(r, x.space) as int;
        assert(apart(d)) by {
            assert forall|i: int, j: int| 0 <= i < j < d.len() implies (#[trigger] d[i]).addr != (
            #[trigger] d[j]).addr by {
                assert(c[i].addr != c[j].addr);
            }
        }
        lemma_ranked_apart(d);
        lemma_rank_bound(r, x.space);
        let s = r.insert(p, x);
        assert forall|i: int| 0 <= i < r.len() implies (#[trigger] r[i]).addr != x.addr by {
            assert(r.contains(r[i]));
            lemma_ranked_member(d, r[i]);
            let j = d.index_of(r[i]);
            assert(c[j].addr != c[c.len() - 1].addr);
        }
        assert forall|i: int, j: int| 0 <= i < j < s.len() implies (#[trigger] s[i]).addr != (
        #[trigger] s[j]).addr by {
            if i == p {
                assert(s[j] == r[j - 1]);
            } else if j == p {
                assert(s[i] == r[i]);
            } else {
                let a = if i < p {
                    i
                } else {
                    i - 1
                };
                let b = if j < p {
                    j
                } else {
                    j - 1
                };
                assert(s[i] == r[a] && s[j] == r[b]);
            }
        }
    }
}

/// The server at a position of the ranking is one of the given ones.
proof fn lemma_spot_of(servers: Seq<(Seq<char>, StatusView)>, p: int) -> (i: int)
    requires
        0 <= p < servers.len(),
    ensures
        0 <= i < servers.len(),
        spots(servers)[i] == ranked(spots(servers))[p],
{
    let c = spots(servers);
    lemma_ranked(c);
    let x = ranked(c)[p];
    assert(ranked(c).contains(x));
    lemma_ranked_member(c, x);
    c.index_of(x)
}

/// As many servers are chosen as asked for, or all of them where there are
/// fewer; all are among the given ones; and none is chosen twice.
pub proof fn law_placement(servers: Seq<(Seq<char>, StatusView)>, n: int)
    requires
        n >= 0,
    ensures
        placement(servers, n).len() == if n < servers.len() {
            n
        } else {
            servers.len() as int
        },
        forall|i: int|
            0 <= i < placement(servers, n).len() ==> known(
                servers,
                #[trigger] placement(servers, n)[i],
            ),
        distinct(servers) ==> placement(servers, n).no_duplicates(),
{
    let c = ranked(spots(servers));
    let all = rounds(c, c.len() as int);
    lemma_ranked(spots(servers));
    lemma_rounds_len(c, c.len() as int);
    lemma_all_taken(c, c.len() as int);
    let p = placement(servers, n);
    assert forall|i: int| 0 <= i < p.len() implies known(servers, #[trigger] p[i]) by {
        assert(p[i] == all[i]);
        let f = lemma_rounds_from(c, c.len() as int, i);
        let q = lemma_in_rack(c, f.0, f.1);
        let k = lemma_spot_of(servers, q);
        assert(servers[k].0 == p[i]);
    }
    if distinct(servers) {
        let d = spots(servers);
        assert forall|i: int, j: int| 0 <= i < j < d.len() implies (#[trigger] d[i]).addr != (
        #[trigger] d[j]).addr by {
            assert(servers[i].0 != servers[j].0);
        }
        lemma_ranked_apart(d);
        lemma_rounds_distinct(c, c.len() as int);
    }
}

/// The racks that placement goes through are those of the given servers, each
/// once; and the servers chosen first stand in one of them each, so that no
/// two are in the same rack before every rack has one.
pub proof fn law_placement_spreads(servers: Seq<(Seq<char>, StatusView)>, n: int)
    requires
        n >= 0,
    ensures
        ({
            let ks = racks(ranked(spots(servers)));
            let p = placement(servers, n);
            &&& ks.no_duplicates()
            &&& forall|i: int|
                0 <= i < servers.len() ==> ks.contains(
                    rack_key(servers[i].0, (#[trigger] servers[i]).1.rack_id),
                )
            &&& forall|i: int|
                0 <= i < p.len() && i < ks.len() ==> stands_in(servers, #[trigger] p[i], ks[i])
        }),
{
    let c = ranked(spots(servers));
    let ks = racks(c);
    let p = placement(servers, n);
    let all = rounds(c, c.len() as int);
    lemma_ranked(spots(servers));
    lemma_racks_distinct(c);
    assert forall|i: int| 0 <= i < servers.len() implies ks.contains(
        rack_key(servers[i].0, (#[trigger] servers[i]).1.rack_id),
    ) by {
        let x = spots(servers)[i];
        assert(spots(servers).contains(x));
        lemma_ranked_member(spots(servers), x);
        lemma_rack_listed(c, c.index_of(x));
    }
    assert forall|i: int| 0 <= i < p.len() && i < ks.len() implies stands_in(
        servers,
        #[trigger] p[i],
        ks[i],
    ) by {
        assert forall|j: int| 0 <= j < ks.len() implies in_rack(c, #[trigger] ks[j]).len() > 0 by {
            assert(ks.contains(ks[j]));
            lemma_rack_inhabited(c, ks[j]);
        }
        lemma_first_round(c, ks);
        reveal_with_fuel(rounds, 2);
        assert(rounds(c, 1) =~= round(c, ks, 0));
        if c.len() == 0 {
            assert(ks.len() == 0);
        }
        lemma_rounds_begin(c, c.len() as int);
        assert(all[i] == all.take(rounds(c, 1).len() as int)[i]);
        assert(p[i] == all[i]);
        assert(p[i] == in_rack(c, ks[i])[0]);
        let q = lemma_in_rack(c, ks[i], 0);
        let k = lemma_spot_of(servers, q);
        assert(servers[k].0 == p[i]);
    }
}

proof fn lemma_rack_listed(c: Seq<Spot>, i: int)
    requires
        0 <= i < c.len(),
    ensures
        racks(c).contains(c[i].rack),
    decreases c.len(),
{
    lemma_racks_contain(c, c[i].rack);
    if i < c.len() - 1 {
        lemma_rack_listed(c.drop_last(), i);
    }
}

proof fn lemma_first_rack(c: Seq<Spot>)
    requires
        c.len() > 0,
    ensures
        racks(c).len() > 0,
        racks(c)[0] == c[0].rack,
        in_rack(c, c[0].rack).len() > 0,
        in_rack(c, c[0].rack)[0] == c[0].addr,
    decreases c.len(),
{
    if c.len() > 1 {
        lemma_first_rack(c.drop_last());
    } else {
        reveal_with_fuel(racks, 2);
        reveal_with_fuel(in_rack, 2);
        assert(c.drop_last() =~= Seq::<Spot>::empty());
        assert(!racks(c.drop_last()).contains(c.last().rack));
    }
}

/// The server chosen first has the most space of all.
pub proof fn law_placement_prefers_space(servers: Seq<(Seq<char>, StatusView)>, n: int)
    requires
        n >= 1,
        servers.len() > 0,
    ensures
        exists|i: int|
            0 <= i < servers.len() && (#[trigger] servers[i]).0 == placement(servers, n)[0]
                && forall|j: int|
                0 <= j < servers.len() ==> (#[trigger] servers[j]).1.available_space
                    <= servers[i].1.available_space,
{
    let d = spots(servers);
    let c = ranked(d);
    let ks = racks(c);
    lemma_ranked(d);
    lemma_first_rack(c);
    assert forall|j: int| 0 <= j < ks.len() implies in_rack(c, #[trigger] ks[j]).len() > 0 by {
        assert(ks.contains(ks[j]));
        lemma_rack_inhabited(c, ks[j]);
    }
    lemma_first_round(c, ks);
    reveal_with_fuel(rounds, 2);
    assert(rounds(c, 1) =~= round(c, ks, 0));
    lemma_rounds_begin(c, c.len() as int);
    let all = rounds(c, c.len() as int);
    assert(all[0] == all.take(rounds(c, 1).len() as int)[0]);
    assert(placement(servers, n)[0] == all[0]);
    let i = lemma_spot_of(servers, 0);
    assert(servers[i].0 == c[0].addr);
    assert forall|j: int| 0 <= j < servers.len() implies (#[trigger] servers[j]).1.available_space
        <= servers[i].1.available_space by {
        let x = d[j];
        assert(d.contains(x));
        lemma_ranked_member(d, x);
        let q = c.index_of(x);
        if q > 0 {
            assert(c[0].space >= c[q].space);
        }
    }
}

/// The servers of a rack, those with the most space first.
pub open spec fn shelf(servers: Seq<(Seq<char>, StatusView)>, rack: Seq<char>) -> Seq<Seq<char>> {
    in_rack(ranked(spots(servers)), rack)
}

/// The rack of the server with this address.
pub open spec fn rack_of(servers: Seq<(Seq<char>, StatusView)>, addr: Seq<char>) -> Seq<char> {
    let i = choose|i: int| 0 <= i < servers.len() && (#[trigger] servers[i]).0 == addr;
    rack_key(addr, servers[i].1.rack_id)
}

/// The racks of servers with these addresses.
pub open spec fn racks_of(
    servers: Seq<(Seq<char>, StatusView)>,
    addrs: Seq<Seq<char>>,
) -> Set<Seq<char>> {
    addrs.map_values(|a: Seq<char>| rack_of(servers, a)).to_set()
}

proof fn lemma_rack_of(
    servers: Seq<(Seq<char>, StatusView)>,
    addr: Seq<char>,
    rack: Seq<char>,
)
    requires
        distinct(servers),
        stands_in(servers, addr, rack),
    ensures
        rack_of(servers, addr) == rack,
{
    let i = choose|i: int|
        0 <= i < servers.len() && (#[trigger] servers[i]).0 == addr && rack_key(
            addr,
            servers[i].1.rack_id,
        ) == rack;
    let j = choose|j: int| 0 <= j < servers.len() && (#[trigger] servers[j]).0 == addr;
    assert(servers[i].0 == addr && servers[j].0 == addr);
    assert(i == j);
}

proof fn lemma_racks_len(c: Seq<Spot>)
    ensures
        racks(c).len() <= c.len(),
    decreases c.len(),
{
    if c.len() > 0 {
        lemma_racks_len(c.drop_last());
    }
}

/// No choice of as many servers stands in more racks.
pub proof fn law_placement_most_racks(
    servers: Seq<(Seq<char>, StatusView)>,
    n: int,
    other: Seq<Seq<char>>,
)
    requires
        n >= 0,
        distinct(servers),
        other.len() <= n,
        forall|i: int| 0 <= i < other.len() ==> known(servers, #[trigger] other[i]),
    ensures
        racks_of(servers, other).len() <= racks_of(servers, placement(servers, n)).len(),
{
    broadcast use vstd::seq_lib::group_seq_properties;

    let c = ranked(spots(servers));
    let ks = racks(c);
    let p = placement(servers, n);
    let m: int = if n < ks.len() {
        n
    } else {
        ks.len() as int
    };
    law_placement(servers, n);
    law_placement_spreads(servers, n);
    lemma_ranked(spots(servers));
    lemma_racks_len(c);
    let chosen = p.map_values(|a: Seq<char>| rack_of(servers, a));
    let rival = other.map_values(|a: Seq<char>| rack_of(servers, a));
    let first = ks.take(m);
    assert(first.to_set().subset_of(chosen.to_set())) by {
        assert forall|k: Seq<char>| first.to_set().contains(k) implies chosen.to_set().contains(
            k,
        ) by {
            let i = first.index_of(k);
            assert(stands_in(servers, p[i], ks[i]));
            lemma_rack_of(servers, p[i], ks[i]);
            assert(chosen[i] == k);
        }
    }
    assert(first.no_duplicates());
    first.unique_seq_to_set();
    vstd::seq_lib::seq_to_set_is_finite(chosen);
    vstd::seq_lib::seq_to_set_is_finite(ks);
    vstd::set_lib::lemma_len_subset(first.to_set(), chosen.to_set());
    rival.lemma_cardinality_of_set();
    assert(rival.to_set().subset_of(ks.to_set())) by {
        assert forall|k: Seq<char>| rival.to_set().contains(k) implies ks.to_set().contains(k) by {
            let i = rival.index_of(k);
            let a = other[i];
            assert(known(servers, a));
            let j = choose|j: int| 0 <= j < servers.len() && (#[trigger] servers[j]).0 == a;
            assert(ks.contains(rack_key(servers[j].0, servers[j].1.rack_id)));
            assert(stands_in(servers, a, rack_key(a, servers[j].1.rack_id)));
            lemma_rack_of(servers, a, rack_key(a, servers[j].1.rack_id));
        }
    }
    ks.unique_seq_to_set();
    vstd::set_lib::lemma_len_subset(rival.to_set(), ks.to_set());
}

proof fn lemma_rounds_prefix(c: Seq<Spot>, r: int, last: int)
    requires
        0 <= r <= last,
    ensures
        rounds(c, r).len() <= rounds(c, last).len(),
        rounds(c, last).take(rounds(c, r).len() as int) == rounds(c, r),
    decreases last - r,
{
    let n = rounds(c, r).len() as int;
    if r < last {
        lemma_rounds_prefix(c, r, last - 1);
        assert(rounds(c, last).take(n) =~= rounds(c, last - 1).take(n));
    } else {
        assert(rounds(c, last).take(n) =~= rounds(c, r));
    }
}

/// A round takes the next server of every rack that has one.
proof fn lemma_round_has(c: Seq<Spot>, over: Seq<Seq<char>>, r: int, j: int) -> (i: int)
    requires
        0 <= j < over.len(),
        0 <= r < in_rack(c, over[j]).len(),
    ensures
        0 <= i < round(c, over, r).len(),
        round(c, over, r)[i] == in_rack(c, over[j])[r],
    decreases over.len(),
{
    if j == over.len() - 1 {
        round(c, over, r).len() - 1
    } else {
        let i = lemma_round_has(c, over.drop_last(), r, j);
        assert(round(c, over, r)[i] == round(c, over.drop_last(), r)[i]);
        i
    }
}

/// Servers are taken from the racks in turn: no rack gives another server
/// before every rack that can has given as many as that one had; and each
/// gives those with the most space first.
pub proof fn law_placement_round_robin(
    servers: Seq<(Seq<char>, StatusView)>,
    n: int,
    a: Seq<char>,
    b: Seq<char>,
    d: int,
)
    requires
        n >= 0,
        distinct(servers),
        0 <= d,
        d < shelf(servers, a).len(),
        d + 1 < shelf(servers, b).len(),
        placement(servers, n).contains(shelf(servers, b)[d + 1]),
    ensures
        placement(servers, n).contains(shelf(servers, a)[d]),
{
    let s = spots(servers);
    let c = ranked(s);
    let ks = racks(c);
    let last = c.len() as int;
    let all = rounds(c, last);
    let p = placement(servers, n);
    let x = shelf(servers, b)[d + 1];
    lemma_ranked(s);
    assert forall|i: int, j: int| 0 <= i < j < s.len() implies (#[trigger] s[i]).addr != (
    #[trigger] s[j]).addr by {
        assert(servers[i].0 != servers[j].0);
    }
    lemma_ranked_apart(s);
    lemma_rounds_distinct(c, last);
    lemma_in_rack_len(c, b);
    let qa = lemma_in_rack(c, a, d);
    let qb = lemma_in_rack(c, b, d + 1);
    lemma_rack_listed(c, qa);
    lemma_rack_listed(c, qb);
    let u = lemma_round_has(c, ks, d, ks.index_of(a));
    let v = lemma_round_has(c, ks, d + 1, ks.index_of(b));
    let done = rounds(c, d + 1);
    let more = rounds(c, d + 2);
    assert(done == rounds(c, d) + round(c, ks, d));
    assert(more == done + round(c, ks, d + 1));
    lemma_rounds_prefix(c, d + 1, last);
    lemma_rounds_prefix(c, d + 2, last);
    let at = done.len() + v;
    assert(more[at] == x);
    assert(all[at] == all.take(more.len() as int)[at]);
    let i = p.index_of(x);
    assert(p[i] == all[i]);
    assert(i == at);
    let k = rounds(c, d).len() + u;
    assert(done[k] == shelf(servers, a)[d]);
    assert(all[k] == all.take(done.len() as int)[k]);
    assert(p[k] == all[k]);
}

/// Of each rack the best servers are chosen first: with a server, all that
/// stand before it on its shelf are chosen.
pub proof fn law_placement_best_of_rack_first(
    servers: Seq<(Seq<char>, StatusView)>,
    n: int,
    rack: Seq<char>,
    d: int,
    e: int,
)
    requires
        n >= 0,
        distinct(servers),
        0 <= d <= e < shelf(servers, rack).len(),
        placement(servers, n).contains(shelf(servers, rack)[e]),
    ensures
        placement(servers, n).contains(shelf(servers, rack)[d]),
    decreases e - d,
{
    if d < e {
        law_placement_round_robin(servers, n, rack, rack, e - 1);
        law_placement_best_of_rack_first(servers, n, rack, d, e - 1);
    }
}

proof fn lemma_in_rack_order(c: Seq<Spot>, rack: Seq<char>, i: int, j: int) -> (q: (int, int))
    requires
        0 <= i < j < in_rack(c, rack).len(),
    ensures
        0 <= q.0 < q.1 < c.len(),
        c[q.0].addr == in_rack(c, rack)[i],
        c[q.1].addr == in_rack(c, rack)[j],
    decreases c.len(),
{
    let d = c.drop_last();
    if c.last().rack == rack && j == in_rack(c, rack).len() - 1 {
        let p = lemma_in_rack(d, rack, i);
        (p, c.len() - 1)
    } else {
        lemma_in_rack_order(d, rack, i, j)
    }
}

/// A shelf holds the servers of its rack by falling space.
pub proof fn law_shelves_are_in_order(
    servers: Seq<(Seq<char>, StatusView)>,
    rack: Seq<char>,
    i: int,
    j: int,
)
    requires
        0 <= i < j < shelf(servers, rack).len(),
    ensures
        exists|s: int, t: int|
            0 <= s < servers.len() && 0 <= t < servers.len() && (#[trigger] servers[s]).0 == shelf(
                servers,
                rack,
            )[i] && (#[trigger] servers[t]).0 == shelf(servers, rack)[j]
                && servers[s].1.available_space >= servers[t].1.available_space,
{
    let c = ranked(spots(servers));
    lemma_ranked(spots(servers));
    let q = lemma_in_rack_order(c, rack, i, j);
    let s = lemma_spot_of(servers, q.0);
    let t = lemma_spot_of(servers, q.1);
    assert(c[q.0].space >= c[q.1].space);
    assert(servers[s].0 == shelf(servers, rack)[i]);
    assert(servers[t].0 == shelf(servers, rack)[j]);
}

} // verus!
