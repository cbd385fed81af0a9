//! Entries that follow one another, back to the beginning of the log.

use crate::raft::cluster::logged;
use crate::raft::command::EntryView;
use crate::raft::node::NodeView;
use vstd::prelude::*;

verus! {

/// Index and term name one entry, and one term before it; no entry is older
/// than the one before it.
pub open spec fn ordered(made: Set<(int, EntryView, u64)>) -> bool {
    &&& forall|q: (int, EntryView, u64), r: (int, EntryView, u64)| #[trigger]
        made.contains(q) && #[trigger] made.contains(r) && q.0 == r.0 && q.1.term == r.1.term ==> q
            == r
    &&& forall|q: (int, EntryView, u64)| #[trigger] made.contains(q) ==> q.2 <= q.1.term
}

/// An entry with this index and term was made, and so were all before it.
#[verifier::opaque]
pub open spec fn stands(made: Set<(int, EntryView, u64)>, index: int, term: u64) -> bool
    decreases index,
{
    if index <= 0 {
        index == 0 && term == 0
    } else {
        exists|q: (int, EntryView, u64)| #[trigger]
            made.contains(q) && q.0 == index && q.1.term == term && stands(made, index - 1, q.2)
    }
}

/// The entry with this index and term.
pub open spec fn named(made: Set<(int, EntryView, u64)>, index: int, term: u64) -> (
    int,
    EntryView,
    u64,
) {
    choose|q: (int, EntryView, u64)| #[trigger]
        made.contains(q) && q.0 == index && q.1.term == term
}

/// The term at index `j` of the log that ends with the entry of this index and
/// term.
#[verifier::opaque]
pub open spec fn term_at(
    made: Set<(int, EntryView, u64)>,
    index: int,
    term: u64,
    j: int,
) -> u64
    decreases index - j,
{
    if j >= index {
        term
    } else {
        term_at(made, index - 1, named(made, index, term).2, j)
    }
}

/// The log that ends with the entry of this index and term holds `q`.
pub open spec fn passes(
    made: Set<(int, EntryView, u64)>,
    index: int,
    term: u64,
    q: (int, EntryView, u64),
) -> bool {
    q.0 <= index && term_at(made, index, term, q.0) == q.1.term
}

/// The end of a log has an entry of its own, unless the log is empty.
pub proof fn lemma_end(made: Set<(int, EntryView, u64)>, index: int, term: u64)
    requires
        stands(made, index, term),
        index > 0 || term > 0,
    ensures
        index > 0,
        made.contains(named(made, index, term)),
        named(made, index, term).0 == index,
        named(made, index, term).1.term == term,
{
    reveal(stands);
}

pub proof fn lemma_start(made: Set<(int, EntryView, u64)>)
    ensures
        stands(made, 0, 0),
{
    reveal(stands);
}

pub proof fn lemma_term_at_end(made: Set<(int, EntryView, u64)>, index: int, term: u64)
    ensures
        term_at(made, index, term, index) == term,
{
    reveal(term_at);
}

pub proof fn lemma_stands_range(made: Set<(int, EntryView, u64)>, index: int, term: u64)
    requires
        stands(made, index, term),
    ensures
        index >= 0,
        index == 0 ==> term == 0,
{
    reveal(stands);
}

/// What stands goes on standing when more is made.
pub proof fn lemma_more(
    made: Set<(int, EntryView, u64)>,
    more: Set<(int, EntryView, u64)>,
    index: int,
    term: u64,
    j: int,
)
    requires
        made.subset_of(more),
        ordered(more),
        stands(made, index, term),
        j >= 0,
    ensures
        stands(more, index, term),
        term_at(more, index, term, j) == term_at(made, index, term, j),
    decreases index,
{
    reveal(stands);
    reveal(term_at);
    if index > 0 {
        let q = choose|q: (int, EntryView, u64)| #[trigger]
            made.contains(q) && q.0 == index && q.1.term == term && stands(made, index - 1, q.2);
        assert(more.contains(q));
        assert(made.contains(named(made, index, term)));
        assert(more.contains(named(made, index, term)));
        assert(named(more, index, term) == q);
        assert(named(made, index, term) == q);
        lemma_more(made, more, index - 1, q.2, j);
    }
}

pub proof fn lemma_all_more(made: Set<(int, EntryView, u64)>, more: Set<(int, EntryView, u64)>)
    requires
        made.subset_of(more),
        ordered(more),
    ensures
        forall|k: int, t: u64| #[trigger] stands(made, k, t) ==> stands(more, k, t),
        forall|k: int, t: u64, j: int|
            stands(made, k, t) && j >= 0 ==> #[trigger] term_at(more, k, t, j) == term_at(
                made,
                k,
                t,
                j,
            ),
{
    assert forall|k: int, t: u64| #[trigger] stands(made, k, t) implies stands(more, k, t) by {
        lemma_more(made, more, k, t, 0);
    }
    assert forall|k: int, t: u64, j: int| stands(made, k, t) && j >= 0 implies #[trigger] term_at(
        more,
        k,
        t,
        j,
    ) == term_at(made, k, t, j) by {
        lemma_more(made, more, k, t, j);
    }
}

/// What stands in a log at `j` ends a log of its own, with the same entries.
pub proof fn lemma_below(
    made: Set<(int, EntryView, u64)>,
    index: int,
    term: u64,
    j: int,
    i: int,
)
    requires
        ordered(made),
        stands(made, index, term),
        0 <= j <= index,
        i <= j,
    ensures
        stands(made, j, term_at(made, index, term, j)),
        term_at(made, j, term_at(made, index, term, j), i) == term_at(made, index, term, i),
        term_at(made, index, term, j) <= term,
    decreases index,
{
    reveal(stands);
    reveal(term_at);
    if j < index {
        let q = choose|q: (int, EntryView, u64)| #[trigger]
            made.contains(q) && q.0 == index && q.1.term == term && stands(made, index - 1, q.2);
        assert(made.contains(q));
        assert(named(made, index, term) == q);
        lemma_below(made, index - 1, q.2, j, i);
    }
}

/// Terms do not go down along a log.
pub proof fn lemma_rising(made: Set<(int, EntryView, u64)>, index: int, term: u64, i: int, j: int)
    requires
        ordered(made),
        stands(made, index, term),
        0 <= i <= j <= index,
    ensures
        term_at(made, index, term, i) <= term_at(made, index, term, j),
{
    lemma_below(made, index, term, j, i);
    lemma_below(made, j, term_at(made, index, term, j), i, i);
}

/// Two logs that hold the same term at `j` hold the same terms below.
pub proof fn lemma_same_below(
    made: Set<(int, EntryView, u64)>,
    index: int,
    term: u64,
    other: int,
    another: u64,
    j: int,
    i: int,
)
    requires
        ordered(made),
        stands(made, index, term),
        stands(made, other, another),
        0 <= j <= index,
        j <= other,
        i <= j,
        term_at(made, index, term, j) == term_at(made, other, another, j),
    ensures
        term_at(made, index, term, i) == term_at(made, other, another, i),
{
    lemma_below(made, index, term, j, i);
    lemma_below(made, other, another, j, i);
}

/// A log with one more entry.
pub proof fn lemma_next(made: Set<(int, EntryView, u64)>, q: (int, EntryView, u64), j: int)
    requires
        ordered(made),
        made.contains(q),
        q.0 >= 1,
        stands(made, q.0 - 1, q.2),
    ensures
        stands(made, q.0, q.1.term),
        term_at(made, q.0, q.1.term, j) == if j >= q.0 {
            q.1.term
        } else {
            term_at(made, q.0 - 1, q.2, j)
        },
{
    reveal(stands);
    reveal(term_at);
    assert(made.contains(q) && q.0 == q.0 && q.1.term == q.1.term && stands(made, q.0 - 1, q.2));
    assert(named(made, q.0, q.1.term) == q);
}

/// The term that the log of a node holds at `j`.
pub open spec fn held(made: Set<(int, EntryView, u64)>, n: NodeView, j: int) -> u64 {
    term_at(made, n.last_index(), n.last_term(), j)
}

/// The log of a node, as it stands: it begins where the snapshot ends.
pub open spec fn rooted(made: Set<(int, EntryView, u64)>, n: NodeView) -> bool {
    &&& n.log.len() >= 1
    &&& n.log[0].term == n.last_included_term
    &&& stands(made, n.last_included_index as int, n.last_included_term)
    &&& logged(n).subset_of(made)
}

proof fn lemma_rooted_at(made: Set<(int, EntryView, u64)>, n: NodeView, k: int, j: int)
    requires
        ordered(made),
        rooted(made, n),
        n.holds(k),
        j <= k,
    ensures
        stands(made, k, n.entry(k).term),
        term_at(made, k, n.entry(k).term, j) == if j >= n.last_included_index {
            n.entry(j).term
        } else {
            term_at(made, n.last_included_index as int, n.last_included_term, j)
        },
    decreases k,
{
    if k == n.last_included_index {
        if j == k {
            lemma_term_at_end(made, k, n.entry(k).term);
        }
    } else {
        let q = (k, n.entry(k), n.entry(k - 1).term);
        assert(logged(n).contains(q));
        assert(made.contains(q));
        if j < k {
            lemma_rooted_at(made, n, k - 1, j);
        } else {
            lemma_rooted_at(made, n, k - 1, k - 1);
        }
        lemma_next(made, q, j);
    }
}

/// The log of a node stands, with the terms that it holds.
pub proof fn lemma_rooted(made: Set<(int, EntryView, u64)>, n: NodeView)
    requires
        ordered(made),
        rooted(made, n),
    ensures
        stands(made, n.last_index(), n.last_term()),
        forall|j: int|
            n.last_included_index <= j <= n.last_index() ==> #[trigger] held(made, n, j)
                == n.entry(j).term,
        forall|j: int|
            j <= n.last_included_index ==> #[trigger] held(made, n, j) == term_at(
                made,
                n.last_included_index as int,
                n.last_included_term,
                j,
            ),
{
    let k = n.last_index();
    assert(n.entry(k).term == n.last_term());
    lemma_rooted_at(made, n, k, k);
    assert forall|j: int| n.last_included_index <= j <= n.last_index() implies #[trigger] held(
        made,
        n,
        j,
    ) == n.entry(j).term by {
        lemma_rooted_at(made, n, k, j);
    }
    assert forall|j: int| j <= n.last_included_index implies #[trigger] held(made, n, j) == term_at(
        made,
        n.last_included_index as int,
        n.last_included_term,
        j,
    ) by {
        lemma_rooted_at(made, n, k, j);
        if j == n.last_included_index {
            lemma_term_at_end(made, j, n.last_included_term);
        }
    }
}

} // verus!
