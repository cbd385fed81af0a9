//! Members of a cluster in ascending order of their ids.

use crate::raft::config::book_entries;
use std::collections::HashMap;
use vstd::prelude::*;

verus! {

broadcast use vstd::std_specs::hash::group_hash_axioms;

/// Each id comes before every larger one.
pub open spec fn ascending(s: Seq<usize>) -> bool {
    forall|i: int, j: int| 0 <= i < j < s.len() ==> s[i] < s[j]
}

/// The ids of a set, in ascending order.
pub open spec fn sorted_ids(s: Set<usize>) -> Seq<usize> {
    choose|q: Seq<usize>| ascending(q) && q.to_set() == s
}

proof fn lemma_same_order(a: Seq<usize>, b: Seq<usize>)
    requires
        ascending(a),
        ascending(b),
        a.to_set() == b.to_set(),
    ensures
        a == b,
    decreases a.len(),
{
    if a.len() == 0 {
        if b.len() > 0 {
            assert(b.to_set().contains(b[0]));
            assert(a.to_set().contains(b[0]));
        }
    } else {
        assert(a.to_set().contains(a.last()));
        assert(b.contains(a.last()));
        assert(b.to_set().contains(b.last()));
        assert(a.contains(b.last()));
        let i = b.index_of(a.last());
        let j = a.index_of(b.last());
        assert(a.last() == b.last());
        let a1 = a.drop_last();
        let b1 = b.drop_last();
        assert forall|x: usize| a1.to_set().contains(x) == b1.to_set().contains(x) by {
            if a1.contains(x) {
                let p = a1.index_of(x);
                assert(a[p] == x);
                assert(a.to_set().contains(x));
                assert(b.contains(x));
                let q = b.index_of(x);
                assert(b1[q] == x);
            }
            if b1.contains(x) {
                let p = b1.index_of(x);
                assert(b[p] == x);
                assert(b.to_set().contains(x));
                assert(a.contains(x));
                let q = a.index_of(x);
                assert(a1[q] == x);
            }
        }
        assert(a1.to_set() =~= b1.to_set());
        lemma_same_order(a1, b1);
        assert(a =~= a1.push(a.last()));
        assert(b =~= b1.push(b.last()));
    }
}

/// A list in ascending order is the ordered list of its own elements.
pub proof fn lemma_sorted_ids(q: Seq<usize>)
    requires
        ascending(q),
    ensures
        sorted_ids(q.to_set()) == q,
{
    lemma_same_order(sorted_ids(q.to_set()), q);
}

/// The ids of a list of entries.
pub open spec fn ids_of(s: Seq<(usize, String)>) -> Seq<usize> {
    Seq::new(s.len(), |i: int| s[i].0)
}

/// The entries of an address book in ascending order of the ids, without the
/// one of `skip`.
pub fn sorted_entries(m: &HashMap<usize, String>, skip: Option<usize>) -> (r: Vec<(usize, String)>)
    ensures
        m@.dom().finite(),
        ascending(ids_of(r@)),
        ids_of(r@) == sorted_ids(
            match skip {
                Some(k) => m@.dom().remove(k),
                None => m@.dom(),
            },
        ),
        forall|i: int|
            0 <= i < r@.len() ==> m@.contains_key((#[trigger] r@[i]).0) && m@[r@[i].0] == r@[i].1
                && skip != Some(r@[i].0),
        forall|k: usize|
            m@.contains_key(k) && skip != Some(k) ==> #[trigger] ids_of(r@).contains(k),
{
    let all = book_entries(m);
    let mut r: Vec<(usize, String)> = Vec::new();
    let mut n: usize = 0;
    while n < all.len()
        invariant
            n <= all.len(),
            ascending(ids_of(r@)),
            forall|i: int, j: int|
                0 <= i < j < all@.len() ==> (#[trigger] all@[i]).0 != (#[trigger] all@[j]).0,
            forall|i: int|
                0 <= i < all@.len() ==> m@.contains_key((#[trigger] all@[i]).0) && m@[all@[i].0]
                    == all@[i].1,
            forall|i: int|
                0 <= i < r@.len() ==> m@.contains_key((#[trigger] r@[i]).0) && m@[r@[i].0]
                    == r@[i].1 && skip != Some(r@[i].0),
            forall|i: int|
                0 <= i < r@.len() ==> exists|j: int|
                    0 <= j < n && (#[trigger] all@[j]).0 == (#[trigger] r@[i]).0,
            forall|j: int|
                0 <= j < n && skip != Some((#[trigger] all@[j]).0) ==> ids_of(r@).contains(
                    all@[j].0,
                ),
        decreases all.len() - n,
    {
        let id: usize = all[n].0;
        let skipped = match skip {
            Some(k) => k == id,
            None => false,
        };
        if !skipped {
            let mut pos: usize = 0;
            while pos < r.len() && r[pos].0 < id
                invariant
                    pos <= r@.len(),
                    forall|i: int| 0 <= i < pos ==> (#[trigger] r@[i]).0 < id,
                decreases r@.len() - pos,
            {
                pos += 1;
            }
            let ghost before = r@;
            proof {
                assert forall|i: int| 0 <= i < before.len() implies (#[trigger] before[i]).0
                    != id by {
                    let j = choose|j: int|
                        0 <= j < n && (#[trigger] all@[j]).0 == before[i].0;
                    assert(all@[j].0 != all@[n as int].0);
                }
                assert forall|i: int| pos <= i < before.len() implies (#[trigger] before[i]).0
                    > id by {
                    if pos < i {
                        assert(ids_of(before)[pos as int] < ids_of(before)[i]);
                    }
                }
            }
            r.insert(pos, (id, all[n].1.clone()));
            proof {
                assert(r@ == before.insert(pos as int, (id, all@[n as int].1)));
                assert forall|i: int, j: int| 0 <= i < j < r@.len() implies ids_of(r@)[i] < ids_of(
                    r@,
                )[j] by {
                    let i0 = if i < pos {
                        i
                    } else {
                        i - 1
                    };
                    let j0 = if j < pos {
                        j
                    } else {
                        j - 1
                    };
                    if i != pos && j != pos {
                        assert(ids_of(before)[i0] < ids_of(before)[j0]);
                    } else if i == pos {
                        assert(before[j0].0 > id);
                    } else {
                        assert(before[i0].0 < id);
                    }
                }
                assert(r@[pos as int].0 == id);
                assert forall|i: int| 0 <= i < r@.len() implies exists|j: int|
                    0 <= j < n + 1 && (#[trigger] all@[j]).0 == (#[trigger] r@[i]).0 by {
                    if i == pos {
                        assert(all@[n as int].0 == r@[i].0);
                    } else {
                        let i0 = if i < pos {
                            i
                        } else {
                            i - 1
                        };
                        assert(r@[i] == before[i0]);
                        let j = choose|j: int|
                            0 <= j < n && (#[trigger] all@[j]).0 == before[i0].0;
                        assert(all@[j].0 == r@[i].0);
                    }
                }
                assert forall|i: int| 0 <= i < r@.len() implies m@.contains_key(
                    (#[trigger] r@[i]).0,
                ) && m@[r@[i].0] == r@[i].1 && skip != Some(r@[i].0) by {
                    if i != pos {
                        let i0 = if i < pos {
                            i
                        } else {
                            i - 1
                        };
                        assert(r@[i] == before[i0]);
                    }
                }
                assert forall|j: int|
                    0 <= j < n + 1 && skip != Some((#[trigger] all@[j]).0) implies ids_of(
                    r@,
                ).contains(all@[j].0) by {
                    if j == n {
                        assert(ids_of(r@)[pos as int] == id);
                    } else {
                        let i = ids_of(before).index_of(all@[j].0);
                        let i1 = if i < pos {
                            i
                        } else {
                            i + 1
                        };
                        assert(ids_of(r@)[i1] == all@[j].0);
                    }
                }
            }
        }
        n += 1;
    }
    proof {
        let want = match skip {
            Some(k) => m@.dom().remove(k),
            None => m@.dom(),
        };
        let q = ids_of(r@);
        assert forall|k: usize| m@.contains_key(k) && skip != Some(k) implies #[trigger] ids_of(
            r@,
        ).contains(k) by {
            let j = choose|j: int| 0 <= j < all@.len() && (#[trigger] all@[j]).0 == k;
            assert(ids_of(r@).contains(all@[j].0));
        }
        assert forall|x: usize| q.to_set().contains(x) == want.contains(x) by {
            if q.contains(x) {
                let i = q.index_of(x);
                assert(r@[i].0 == x);
            }
            if want.contains(x) {
                assert(ids_of(r@).contains(x));
            }
        }
        assert(q.to_set() =~= want);
        lemma_sorted_ids(q);
    }
    r
}

} // verus!
