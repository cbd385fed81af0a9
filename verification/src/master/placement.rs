//! Choosing chunk servers: the ones with the most space first, spread over as
//! many racks as possible.

use crate::master::types::{ChunkServerStatus, StatusView};
use crate::text::{concat, position_of};
use vstd::prelude::*;

verus! {

/// A chunk server as placement sees it.
#[derive(Debug)]
struct Candidate {
    addr: String,
    space: u64,
    rack: String,
}

/// A chunk server as placement sees it: its address, its free space and the
/// rack that it counts for.
pub struct Spot {
    pub addr: Seq<char>,
    pub space: u64,
    pub rack: Seq<char>,
}

impl View for Candidate {
    type V = Spot;

    closed spec fn view(&self) -> Spot {
        Spot { addr: self.addr@, space: self.space, rack: self.rack@ }
    }
}

impl DeepView for Candidate {
    type V = Spot;

    closed spec fn deep_view(&self) -> Spot {
        self.view()
    }
}

/// The rack that a server counts for; a server without one is a rack of its
/// own.
pub open spec fn rack_key(addr: Seq<char>, rack_id: Seq<char>) -> Seq<char> {
    if rack_id.len() == 0 {
        "__addr__"@ + addr
    } else {
        rack_id
    }
}

/// A server as placement sees it.
pub open spec fn spot(s: (Seq<char>, StatusView)) -> Spot {
    Spot { addr: s.0, space: s.1.available_space, rack: rack_key(s.0, s.1.rack_id) }
}

/// Servers as placement sees them.
pub open spec fn spots(servers: Seq<(Seq<char>, StatusView)>) -> Seq<Spot> {
    servers.map_values(|s: (Seq<char>, StatusView)| spot(s))
}

/// How many leading servers have at least `space`.
pub open spec fn rank_of(c: Seq<Spot>, space: u64) -> nat
    decreases c.len(),
{
    if c.len() == 0 || c[0].space < space {
        0
    } else {
        1 + rank_of(c.drop_first(), space)
    }
}

/// The servers by falling space; where it is equal, as they came.
pub open spec fn ranked(c: Seq<Spot>) -> Seq<Spot>
    decreases c.len(),
{
    if c.len() == 0 {
        c
    } else {
        let r = ranked(c.drop_last());
        r.insert(rank_of(r, c.last().space) as int, c.last())
    }
}

/// The racks in the order of their first server.
pub open spec fn racks(c: Seq<Spot>) -> Seq<Seq<char>>
    decreases c.len(),
{
    if c.len() == 0 {
        Seq::empty()
    } else {
        let r = racks(c.drop_last());
        if r.contains(c.last().rack) {
            r
        } else {
            r.push(c.last().rack)
        }
    }
}

/// The addresses of the servers in a rack, in order.
pub open spec fn in_rack(c: Seq<Spot>, rack: Seq<char>) -> Seq<Seq<char>>
    decreases c.len(),
{
    if c.len() == 0 {
        Seq::empty()
    } else if c.last().rack == rack {
        in_rack(c.drop_last(), rack).push(c.last().addr)
    } else {
        in_rack(c.drop_last(), rack)
    }
}

/// Round `r` over the given racks: one server of each, as long as it has any
/// left.
pub open spec fn round(c: Seq<Spot>, over: Seq<Seq<char>>, r: int) -> Seq<Seq<char>>
    decreases over.len(),
{
    if over.len() == 0 {
        Seq::empty()
    } else {
        let before = round(c, over.drop_last(), r);
        let m = in_rack(c, over.last());
        if r < m.len() {
            before.push(m[r])
        } else {
            before
        }
    }
}

/// The first `r` rounds over all racks.
pub open spec fn rounds(c: Seq<Spot>, r: int) -> Seq<Seq<char>>
    decreases r,
{
    if r <= 0 {
        Seq::empty()
    } else {
        rounds(c, r - 1) + round(c, racks(c), r - 1)
    }
}

/// The first `n` elements, or all if there are fewer.
pub open spec fn first_n<T>(s: Seq<T>, n: int) -> Seq<T> {
    if n <= s.len() {
        s.take(n)
    } else {
        s
    }
}

/// The `n` servers chosen for replicas: round by round one of each rack, the
/// servers with the most space first.
pub open spec fn placement(servers: Seq<(Seq<char>, StatusView)>, n: int) -> Seq<Seq<char>> {
    let c = ranked(spots(servers));
    first_n(rounds(c, c.len() as int), n)
}

proof fn lemma_rank(c: Seq<Spot>, space: u64, i: int)
    requires
        0 <= i <= c.len(),
        forall|j: int| 0 <= j < i ==> (#[trigger] c[j]).space >= space,
        i == c.len() || c[i].space < space,
    ensures
        rank_of(c, space) == i,
    decreases i,
{
    if i > 0 {
        assert(c[0].space >= space);
        assert forall|j: int| 0 <= j < i - 1 implies (#[trigger] c.drop_first()[j]).space
            >= space by {
            assert(c[j + 1].space >= space);
        }
        lemma_rank(c.drop_first(), space, i - 1);
    }
}

fn rank_candidates(servers: &[(String, ChunkServerStatus)]) -> (r: Vec<Candidate>)
    ensures
        r.deep_view() == ranked(spots(servers.deep_view())),
{
    let ghost all = spots(servers.deep_view());
    let mut r: Vec<Candidate> = Vec::new();
    let mut i: usize = 0;
    assert(all.take(0) =~= Seq::<Spot>::empty());
    assert(r.deep_view() =~= ranked(all.take(0)));
    while i < servers.len()
        invariant
            i <= servers@.len(),
            all == spots(servers.deep_view()),
            r.deep_view() == ranked(all.take(i as int)),
        decreases servers@.len() - i,
    {
        let space: u64 = servers[i].1.available_space;
        let rack = if servers[i].1.rack_id.as_str().is_empty() {
            concat("__addr__", servers[i].0.as_str())
        } else {
            servers[i].1.rack_id.clone()
        };
        let c = Candidate { addr: servers[i].0.clone(), space, rack };
        proof {
            assert(servers.deep_view()[i as int] == (servers@[i as int].0@, servers@[i as int].1@));
            assert(c@ == all[i as int]);
        }
        let mut pos: usize = 0;
        let ghost rv = r.deep_view();
        while pos < r.len() && r[pos].space >= space
            invariant
                pos <= r@.len(),
                rv == r.deep_view(),
                forall|j: int| 0 <= j < pos ==> (#[trigger] rv[j]).space >= space,
            decreases r@.len() - pos,
        {
            pos += 1;
        }
        proof {
            lemma_rank(rv, space, pos as int);
            assert(all.take(i as int + 1).drop_last() =~= all.take(i as int));
            assert(all.take(i as int + 1).last() == all[i as int]);
        }
        r.insert(pos, c);
        i += 1;
        assert(r.deep_view() =~= rv.insert(pos as int, c@));
    }
    assert(all.take(all.len() as int) =~= all);
    r
}

/// Whether every bucket holds the servers of its rack.
spec fn buckets_ok(c: Seq<Spot>, keys: Seq<Seq<char>>, buckets: Seq<Seq<Seq<char>>>) -> bool {
    &&& keys == racks(c)
    &&& buckets.len() == keys.len()
    &&& forall|j: int| 0 <= j < keys.len() ==> (#[trigger] buckets[j]) == in_rack(c, keys[j])
}

proof fn lemma_rack_absent(c: Seq<Spot>, rack: Seq<char>)
    requires
        !racks(c).contains(rack),
    ensures
        in_rack(c, rack) == Seq::<Seq<char>>::empty(),
    decreases c.len(),
{
    if c.len() > 0 {
        let d = c.drop_last();
        let r = racks(d);
        assert(c.last().rack != rack) by {
            if c.last().rack == rack {
                if !r.contains(rack) {
                    assert(r.push(rack)[r.len() as int] == rack);
                }
            }
        }
        assert(!r.contains(rack)) by {
            if r.contains(rack) {
                let i = r.index_of(rack);
                assert(r.push(c.last().rack)[i] == rack);
            }
        }
        lemma_rack_absent(d, rack);
    }
}

pub proof fn lemma_racks_distinct(c: Seq<Spot>)
    ensures
        racks(c).no_duplicates(),
    decreases c.len(),
{
    if c.len() > 0 {
        lemma_racks_distinct(c.drop_last());
    }
}

/// Groups the servers by rack.
fn group(cands: &Vec<Candidate>) -> (r: (Vec<String>, Vec<Vec<String>>))
    ensures
        buckets_ok(cands.deep_view(), r.0.deep_view(), r.1.deep_view()),
{
    let ghost c = cands.deep_view();
    let mut keys: Vec<String> = Vec::new();
    let mut buckets: Vec<Vec<String>> = Vec::new();
    let mut i: usize = 0;
    assert(c.take(0) =~= Seq::<Spot>::empty());
    assert(keys.deep_view() =~= racks(c.take(0)));
    while i < cands.len()
        invariant
            i <= cands@.len(),
            c == cands.deep_view(),
            buckets_ok(c.take(i as int), keys.deep_view(), buckets.deep_view()),
        decreases cands@.len() - i,
    {
        let ghost prev = c.take(i as int);
        let ghost next = c.take(i as int + 1);
        let ghost ks = keys.deep_view();
        let ghost bs = buckets.deep_view();
        proof {
            assert(next.drop_last() =~= prev);
            assert(next.last() == c[i as int]);
            assert(c[i as int] == cands@[i as int]@);
            lemma_racks_distinct(prev);
        }
        match position_of(&keys, cands[i].rack.as_str()) {
            Some(k) => {
                let mut b = crate::strmap::Dup::dup(&buckets[k]);
                let ghost b0 = b.deep_view();
                b.push(cands[i].addr.clone());
                assert(b.deep_view() =~= b0.push(c[i as int].addr));
                buckets.set(k, b);
                proof {
                    assert(ks[k as int] == c[i as int].rack);
                    assert(ks.contains(c[i as int].rack));
                    assert(buckets.deep_view() =~= bs.update(k as int, b.deep_view()));
                    assert forall|j: int| 0 <= j < ks.len() implies (
                    #[trigger] buckets.deep_view()[j]) == in_rack(next, ks[j]) by {
                        assert(bs[j] == in_rack(prev, ks[j]));
                    }
                }
            },
            None => {
                let mut b: Vec<String> = Vec::new();
                b.push(cands[i].addr.clone());
                proof {
                    lemma_rack_absent(prev, c[i as int].rack);
                    assert(b.deep_view() =~= Seq::<Seq<char>>::empty().push(c[i as int].addr));
                }
                keys.push(cands[i].rack.clone());
                buckets.push(b);
                proof {
                    assert(keys.deep_view() =~= ks.push(c[i as int].rack));
                    assert(buckets.deep_view() =~= bs.push(b.deep_view()));
                    assert forall|j: int| 0 <= j < keys.deep_view().len() implies (
                    #[trigger] buckets.deep_view()[j]) == in_rack(next, keys.deep_view()[j]) by {
                        if j < ks.len() {
                            assert(bs[j] == in_rack(prev, ks[j]));
                            assert(ks.contains(ks[j]));
                        }
                    }
                }
            },
        }
        i += 1;
    }
    assert(c.take(c.len() as int) =~= c);
    (keys, buckets)
}

/// Select up to `n` chunk servers for replica placement, maximizing rack diversity.
///
/// Algorithm:
/// 1. Sort all candidates by available_space descending (best-first).
/// 2. Round-robin through racks: in each round, pick the best remaining server
///    from each rack that hasn't contributed yet in this round.
/// 3. Stop when `n` servers are selected or candidates exhausted.
///
/// Empty rack_id strings are each treated as a unique rack (address-keyed).
pub fn select_servers_rack_aware(servers: &[(String, ChunkServerStatus)], n: usize) -> (r: Vec<
    String,
>)
    ensures
        r.deep_view() == placement(servers.deep_view(), n as int),
{
    let cands = rank_candidates(servers);
    let (keys, buckets) = group(&cands);
    let ghost c = cands.deep_view();
    let ghost ks = keys.deep_view();
    let ghost bs = buckets.deep_view();
    let mut selected: Vec<String> = Vec::new();
    let total: usize = cands.len();
    let racks_n: usize = keys.len();
    let mut r: usize = 0;
    assert(selected.deep_view() =~= first_n(rounds(c, 0), n as int));
    while r < total
        invariant
            r <= total,
            total == c.len(),
            racks_n == ks.len(),
            ks == racks(c),
            bs == buckets.deep_view(),
            buckets_ok(c, ks, bs),
            selected.deep_view() == first_n(rounds(c, r as int), n as int),
        decreases total - r,
    {
        let ghost done = rounds(c, r as int);
        let mut k: usize = 0;
        assert(ks.take(0) =~= Seq::<Seq<char>>::empty());
        assert(done + round(c, ks.take(0), r as int) =~= done);
        while k < racks_n
            invariant
                k <= racks_n,
                racks_n == ks.len(),
                bs == buckets.deep_view(),
                buckets_ok(c, ks, bs),
                selected.deep_view() == first_n(
                    done + round(c, ks.take(k as int), r as int),
                    n as int,
                ),
            decreases racks_n - k,
        {
            let ghost part = round(c, ks.take(k as int), r as int);
            let ghost sv = selected.deep_view();
            proof {
                assert(ks.take(k as int + 1).drop_last() =~= ks.take(k as int));
                assert(ks.take(k as int + 1).last() == ks[k as int]);
                assert(bs[k as int] == in_rack(c, ks[k as int]));
                assert(bs[k as int] == buckets@[k as int].deep_view());
            }
            if r < buckets[k].len() {
                let ghost x = bs[k as int][r as int];
                proof {
                    assert(done + part.push(x) =~= (done + part).push(x));
                }
                if selected.len() < n {
                    selected.push(buckets[k][r].clone());
                    assert(selected.deep_view() =~= sv.push(x));
                    assert(first_n((done + part).push(x), n as int) =~= sv.push(x));
                } else {
                    assert(first_n((done + part).push(x), n as int) =~= sv);
                }
            }
            k += 1;
        }
        assert(ks.take(ks.len() as int) =~= ks);
        r += 1;
    }
    selected
}

} // verus!
