//! The sweep-and-prune engine: an x-sweep that gives every volume a window
//! of candidate x-ranks, and a y-sweep that pairs each opening volume with the
//! still-open volumes of its window whose z-extents overlap.
use crate::radix_sort::{argsort, is_argsort, keys_as_int, lemma_argsort_is_permutation, occurs, radix_pow};
use crate::succinct_tree::{pow64, SuccinctSet, SuccintTree};
use vstd::prelude::*;
use vstd::set_lib::{lemma_int_range, lemma_len_subset, lemma_map_size, set_int_range};

verus! {

/// Where `e` stands in the sequence `s`.
pub open spec fn position(s: Seq<usize>, e: int) -> int {
    choose|k: int| 0 <= k < s.len() && s[k] == e
}

/// `s` lists the `2n` endpoint events of `n` volumes once each, every
/// opening (`v`) before the matching closing (`n + v`).
#[verifier::opaque]
pub open spec fn is_event_order(s: Seq<usize>, n: int) -> bool {
    &&& s.len() == 2 * n
    &&& forall|k: int| 0 <= k < s.len() ==> s[k] < 2 * n
    &&& forall|a: int, b: int| 0 <= a < s.len() && 0 <= b < s.len() && s[a] == s[b] ==> a == b
    &&& forall|e: int| 0 <= e < 2 * n ==> #[trigger] occurs(s, e)
    &&& forall|v: int| 0 <= v < n ==> #[trigger] position(s, v) < position(s, n + v)
}

proof fn lemma_position(s: Seq<usize>, n: int, e: int)
    requires
        is_event_order(s, n),
        0 <= e < 2 * n,
    ensures
        0 <= position(s, e) < s.len(),
        s[position(s, e)] == e,
        forall|k: int| 0 <= k < s.len() && s[k] == e ==> k == position(s, e),
{
    reveal(is_event_order);
    assert(occurs(s, e));
}

proof fn lemma_event(s: Seq<usize>, n: int, t: int)
    requires
        is_event_order(s, n),
        0 <= t < s.len(),
    ensures
        s.len() == 2 * n,
        s[t] < 2 * n,
        position(s, s[t] as int) == t,
        s[t] < n ==> t < position(s, n + s[t]),
        s[t] >= n ==> position(s, s[t] - n) < t,
{
    reveal(is_event_order);
    lemma_position(s, n, s[t] as int);
    if s[t] >= n {
        assert(position(s, s[t] - n) < position(s, n + (s[t] - n)));
    }
}

proof fn lemma_positions(s: Seq<usize>, n: int)
    requires
        is_event_order(s, n),
    ensures
        s.len() == 2 * n,
        forall|e: int|
            0 <= e < 2 * n ==> 0 <= #[trigger] position(s, e) < s.len() && s[position(s, e)] == e,
        forall|v: int| 0 <= v < n ==> #[trigger] position(s, v) < position(s, n + v),
{
    reveal(is_event_order);
    assert forall|e: int| 0 <= e < 2 * n implies 0 <= #[trigger] position(s, e) < s.len() && s[position(s, e)] == e by {
        lemma_position(s, n, e);
    }
}

/// A sequence of distinct values below `bound` is no longer than `bound`.
proof fn lemma_injective_bound(f: Seq<usize>, bound: int)
    requires
        0 <= bound,
        forall|i: int| 0 <= i < f.len() ==> f[i] < bound,
        forall|i: int, j: int| 0 <= i < f.len() && 0 <= j < f.len() && f[i] == f[j] ==> i == j,
    ensures
        f.len() <= bound,
{
    let g = |i: int| f[i] as int;
    let dom = set_int_range(0, f.len() as int);
    let img = dom.map(g);
    lemma_int_range(0, f.len() as int);
    lemma_int_range(0, bound);
    lemma_map_size(dom, img, g);
    assert forall|m: int| img.contains(m) implies set_int_range(0, bound).contains(m) by {
        let i = choose|i: int| dom.contains(i) && g(i) == m;
    }
    lemma_len_subset(img, set_int_range(0, bound));
}

/// For each volume, its x-rank, the inverse of the ranks, and the half-open
/// window `[lower, upper)` of ranks that may overlap it.
pub struct CandidateBounds {
    pub lower: Vec<usize>,
    pub upper: Vec<usize>,
    pub ranks: Vec<usize>,
    pub ranks_inv: Vec<usize>,
}

impl CandidateBounds {
    /// Four zeroed vectors of length `len`.
    pub fn new(len: usize) -> (r: Self)
        ensures
            r.lower@ == Seq::new(len as nat, |i: int| 0usize),
            r.upper@ == Seq::new(len as nat, |i: int| 0usize),
            r.ranks@ == Seq::new(len as nat, |i: int| 0usize),
            r.ranks_inv@ == Seq::new(len as nat, |i: int| 0usize),
    {
        let r = CandidateBounds {
            lower: vec![0usize; len],
            upper: vec![0usize; len],
            ranks: vec![0usize; len],
            ranks_inv: vec![0usize; len],
        };
        assert(r.lower@ =~= Seq::new(len as nat, |i: int| 0usize));
        assert(r.upper@ =~= Seq::new(len as nat, |i: int| 0usize));
        assert(r.ranks@ =~= Seq::new(len as nat, |i: int| 0usize));
        assert(r.ranks_inv@ =~= Seq::new(len as nat, |i: int| 0usize));
        r
    }

    /// The ranks are a permutation of `[0, n)` with `ranks_inv` as inverse,
    /// and each volume's own rank lies in its window.
    pub open spec fn is_ranking(&self, n: int) -> bool {
        &&& self.lower@.len() == n
        &&& self.upper@.len() == n
        &&& self.ranks@.len() == n
        &&& self.ranks_inv@.len() == n
        &&& forall|v: int|
            0 <= v < n ==> #[trigger] self.ranks@[v] < n && self.ranks_inv@[self.ranks@[v] as int]
                == v
        &&& forall|r: int|
            0 <= r < n ==> #[trigger] self.ranks_inv@[r] < n && self.ranks@[self.ranks_inv@[r] as int]
                == r
        &&& forall|v: int|
            0 <= v < n ==> #[trigger] self.lower@[v] <= self.ranks@[v] < self.upper@[v] <= n
    }
}

/// Volume `w` was open when `v` opened: it opened before and closed after.
pub open spec fn open_at_opening(s: Seq<usize>, n: int, w: int, v: int) -> bool {
    position(s, w) < position(s, v) < position(s, n + w)
}

/// Volumes `v` and `w` overlap in the event order: each opens before the
/// other closes.
pub open spec fn overlaps_in(s: Seq<usize>, n: int, v: int, w: int) -> bool {
    position(s, w) < position(s, n + v) && position(s, v) < position(s, n + w)
}

/// What the x-sweep knows after its first `t` events, with `rank` openings
/// seen and `active` the ranks of the volumes still open.
#[verifier::opaque]
pub open spec fn x_sweep_state(
    s: Seq<usize>,
    n: int,
    t: int,
    rank: int,
    lower: Seq<usize>,
    upper: Seq<usize>,
    ranks: Seq<usize>,
    inv: Seq<usize>,
    active: Set<int>,
) -> bool {
    &&& lower.len() == n && upper.len() == n && ranks.len() == n && inv.len() == n
    &&& 0 <= t <= s.len()
    &&& 0 <= rank <= n
    &&& forall|v: int|
        0 <= v < n && position(s, v) < t ==> #[trigger] ranks[v] < rank && inv[ranks[v] as int] == v
    &&& forall|q: int|
        0 <= q < rank ==> #[trigger] inv[q] < n && position(s, inv[q] as int) < t && ranks[inv[q] as int]
            == q
    &&& active == Set::new(|q: int| 0 <= q < rank && t <= position(s, n + inv[q]))
    &&& forall|v: int, w: int|
        #![trigger ranks[v], ranks[w]]
        0 <= v < n && 0 <= w < n && position(s, v) < t && position(s, w) < t && position(s, v)
            < position(s, w) ==> ranks[v] < ranks[w]
    &&& forall|v: int| 0 <= v < n && position(s, v) < t ==> #[trigger] lower[v] <= ranks[v]
    &&& forall|v: int, w: int|
        0 <= v < n && 0 <= w < n && position(s, v) < t && #[trigger] open_at_opening(s, n, w, v)
            ==> lower[v] <= ranks[w]
    &&& forall|v: int| 0 <= v < n && position(s, n + v) < t ==> #[trigger] upper[v] <= rank
    &&& forall|v: int, w: int|
        #![trigger ranks[w], upper[v]]
        0 <= v < n && 0 <= w < n && position(s, n + v) < t && position(s, w) < position(s, n + v)
            ==> ranks[w] < upper[v]
    &&& forall|v: int, w: int|
        #![trigger ranks[w], upper[v]]
        0 <= v < n && 0 <= w < n && position(s, n + v) < position(s, w) < t ==> upper[v]
            <= ranks[w]
    &&& forall|v: int|
        0 <= v < n && position(s, v) < t ==> #[trigger] lower[v] < rank && lowest_open(
            s,
            n,
            inv[lower[v] as int] as int,
            v,
        )
}

/// `u` is `v` itself or was open when `v` opened.
pub open spec fn lowest_open(s: Seq<usize>, n: int, u: int, v: int) -> bool {
    u == v || open_at_opening(s, n, u, v)
}

/// An opening at event `t` leaves a free rank below `n`.
proof fn lemma_rank_available(
    s: Seq<usize>,
    n: int,
    t: int,
    rank: int,
    lower: Seq<usize>,
    upper: Seq<usize>,
    ranks: Seq<usize>,
    inv: Seq<usize>,
    active: Set<int>,
)
    requires
        is_event_order(s, n),
        x_sweep_state(s, n, t, rank, lower, upper, ranks, inv, active),
        t < s.len(),
        s[t] < n,
    ensures
        rank < n,
{
    reveal(x_sweep_state);
    lemma_event(s, n, t);
    lemma_positions(s, n);
    let v = s[t] as int;
    lemma_position(s, n, v);
    let f = inv.take(rank).push(v as usize);
    assert forall|i: int, j: int| 0 <= i < f.len() && 0 <= j < f.len() && f[i] == f[j] implies i
        == j by {
        if i < rank && j < rank {
            assert(ranks[inv[i] as int] == i);
            assert(ranks[inv[j] as int] == j);
        } else if i < rank {
            assert(position(s, inv[i] as int) < t);
        } else if j < rank {
            assert(position(s, inv[j] as int) < t);
        }
    }
    lemma_injective_bound(f, n);
}

#[verifier::rlimit(50)]
proof fn lemma_open_step(
    s: Seq<usize>,
    n: int,
    t: int,
    rank: int,
    lower: Seq<usize>,
    upper: Seq<usize>,
    ranks: Seq<usize>,
    inv: Seq<usize>,
    active: Set<int>,
    lowest: usize,
)
    requires
        is_event_order(s, n),
        x_sweep_state(s, n, t, rank, lower, upper, ranks, inv, active),
        t < s.len(),
        s[t] < n,
        rank < n,
        active.insert(rank).contains(lowest as int),
        forall|q: int| #[trigger] active.insert(rank).contains(q) && -1 < q ==> lowest <= q,
    ensures
        x_sweep_state(
            s,
            n,
            t + 1,
            rank + 1,
            lower.update(s[t] as int, lowest),
            upper,
            ranks.update(s[t] as int, rank as usize),
            inv.update(rank, s[t]),
            active.insert(rank),
        ),
{
    reveal(x_sweep_state);
    lemma_event(s, n, t);
    lemma_positions(s, n);
    let v = s[t] as int;
    lemma_position(s, n, v);
    lemma_position(s, n, n + v);
    let lower2 = lower.update(v, lowest);
    let ranks2 = ranks.update(v, rank as usize);
    let inv2 = inv.update(rank, v as usize);
    assert forall|w: int| 0 <= w < n && position(s, w) < t + 1 implies #[trigger] ranks2[w] < rank
        + 1 && inv2[ranks2[w] as int] == w by {
        if w != v {
            lemma_position(s, n, w);
        }
    }
    assert forall|q: int| 0 <= q < rank + 1 implies #[trigger] inv2[q] < n && position(
        s,
        inv2[q] as int,
    ) < t + 1 && ranks2[inv2[q] as int] == q by {
        if q < rank {
            assert(position(s, inv[q] as int) < t);
        }
    }
    assert forall|q: int| 0 <= q < rank implies (t + 1 <= position(s, n + inv2[q])) == (t
        <= position(s, n + inv[q])) by {
        assert(inv[q] < n);
        lemma_position(s, n, n + inv[q]);
    }
    assert(active.insert(rank) =~= Set::new(
        |q: int| 0 <= q < rank + 1 && t + 1 <= position(s, n + inv2[q]),
    ));
    assert forall|a: int, b: int|
        #![trigger ranks2[a], ranks2[b]]
        0 <= a < n && 0 <= b < n && position(s, a) < t + 1 && position(s, b) < t + 1 && position(
            s,
            a,
        ) < position(s, b) implies ranks2[a] < ranks2[b] by {
        lemma_position(s, n, a);
        lemma_position(s, n, b);
    }
    assert forall|a: int| 0 <= a < n && position(s, a) < t + 1 implies #[trigger] lower2[a]
        <= ranks2[a] by {
        lemma_position(s, n, a);
        if a == v {
            assert(active.insert(rank).contains(rank));
        }
    }
    assert forall|a: int, w: int|
        0 <= a < n && 0 <= w < n && position(s, a) < t + 1 && #[trigger] open_at_opening(
            s,
            n,
            w,
            a,
        ) implies lower2[a] <= ranks2[w] by {
        lemma_position(s, n, a);
        lemma_position(s, n, w);
        lemma_position(s, n, n + w);
        if a == v {
            let q = ranks[w] as int;
            assert(inv[q] == w);
            assert(active.contains(q));
            assert(active.insert(rank).contains(q));
        }
    }
    assert forall|a: int| 0 <= a < n && position(s, n + a) < t + 1 implies #[trigger] upper[a]
        <= rank + 1 by {
        lemma_position(s, n, n + a);
    }
    assert forall|a: int, w: int|
        #![trigger ranks2[w], upper[a]]
        0 <= a < n && 0 <= w < n && position(s, n + a) < t + 1 && position(s, w) < position(
            s,
            n + a,
        ) implies ranks2[w] < upper[a] by {
        lemma_position(s, n, n + a);
        lemma_position(s, n, w);
        lemma_position(s, n, a);
    }
    assert forall|a: int, w: int|
        #![trigger ranks2[w], upper[a]]
        0 <= a < n && 0 <= w < n && position(s, n + a) < position(s, w) < t + 1 implies upper[a]
        <= ranks2[w] by {
        lemma_position(s, n, n + a);
        lemma_position(s, n, w);
    }
    if lowest as int != rank {
        assert(active.contains(lowest as int));
        assert(inv[lowest as int] < n);
        lemma_position(s, n, inv[lowest as int] as int);
        lemma_position(s, n, n + inv[lowest as int]);
    }
    assert forall|a: int| 0 <= a < n && position(s, a) < t + 1 implies #[trigger] lower2[a] < rank
        + 1 && lowest_open(s, n, inv2[lower2[a] as int] as int, a) by {
        lemma_position(s, n, a);
    }
}

#[verifier::rlimit(50)]
proof fn lemma_close_step(
    s: Seq<usize>,
    n: int,
    t: int,
    rank: int,
    lower: Seq<usize>,
    upper: Seq<usize>,
    ranks: Seq<usize>,
    inv: Seq<usize>,
    active: Set<int>,
)
    requires
        is_event_order(s, n),
        x_sweep_state(s, n, t, rank, lower, upper, ranks, inv, active),
        t < s.len(),
        s[t] >= n,
    ensures
        0 <= s[t] - n < n,
        position(s, s[t] - n) < t,
        ranks[s[t] - n] < n,
        x_sweep_state(
            s,
            n,
            t + 1,
            rank,
            lower,
            upper.update(s[t] - n, rank as usize),
            ranks,
            inv,
            active.remove(ranks[s[t] - n] as int),
        ),
{
    reveal(x_sweep_state);
    lemma_event(s, n, t);
    lemma_positions(s, n);
    let v = s[t] - n;
    lemma_position(s, n, n + v);
    lemma_position(s, n, v);
    let upper2 = upper.update(v, rank as usize);
    let rv = ranks[v] as int;
    assert(inv[rv] == v);
    assert forall|q: int| 0 <= q < rank implies (t + 1 <= position(s, n + inv[q])) == (t
        <= position(s, n + inv[q]) && q != rv) by {
        assert(inv[q] < n);
        lemma_position(s, n, n + inv[q]);
        assert(ranks[inv[q] as int] == q);
    }
    assert(active.remove(rv) =~= Set::new(
        |q: int| 0 <= q < rank && t + 1 <= position(s, n + inv[q]),
    ));
    assert forall|a: int| 0 <= a < n && position(s, a) < t + 1 implies #[trigger] ranks[a] < rank
        && inv[ranks[a] as int] == a by {
        lemma_position(s, n, a);
    }
    assert forall|a: int, b: int|
        #![trigger ranks[a], ranks[b]]
        0 <= a < n && 0 <= b < n && position(s, a) < t + 1 && position(s, b) < t + 1 && position(
            s,
            a,
        ) < position(s, b) implies ranks[a] < ranks[b] by {
        lemma_position(s, n, a);
        lemma_position(s, n, b);
    }
    assert forall|a: int| 0 <= a < n && position(s, a) < t + 1 implies #[trigger] lower[a]
        <= ranks[a] by {
        lemma_position(s, n, a);
    }
    assert forall|a: int, w: int|
        0 <= a < n && 0 <= w < n && position(s, a) < t + 1 && #[trigger] open_at_opening(
            s,
            n,
            w,
            a,
        ) implies lower[a] <= ranks[w] by {
        lemma_position(s, n, a);
    }
    assert forall|a: int| 0 <= a < n && position(s, n + a) < t + 1 implies #[trigger] upper2[a]
        <= rank by {
        lemma_position(s, n, n + a);
    }
    assert forall|a: int, w: int|
        #![trigger ranks[w], upper2[a]]
        0 <= a < n && 0 <= w < n && position(s, n + a) < t + 1 && position(s, w) < position(
            s,
            n + a,
        ) implies ranks[w] < upper2[a] by {
        lemma_position(s, n, n + a);
        lemma_position(s, n, w);
    }
    assert forall|a: int, w: int|
        #![trigger ranks[w], upper2[a]]
        0 <= a < n && 0 <= w < n && position(s, n + a) < position(s, w) < t + 1 implies upper2[a]
        <= ranks[w] by {
        lemma_position(s, n, n + a);
        lemma_position(s, n, w);
    }
    assert forall|a: int| 0 <= a < n && position(s, a) < t + 1 implies #[trigger] lower[a] < rank
        && lowest_open(s, n, inv[lower[a] as int] as int, a) by {
        lemma_position(s, n, a);
    }
}

/// After all events: the ranking is complete and every overlapping volume
/// falls in the window.
#[verifier::rlimit(50)]
proof fn lemma_x_sweep_done(
    s: Seq<usize>,
    n: int,
    rank: int,
    lower: Seq<usize>,
    upper: Seq<usize>,
    ranks: Seq<usize>,
    inv: Seq<usize>,
    active: Set<int>,
)
    requires
        is_event_order(s, n),
        x_sweep_state(s, n, s.len() as int, rank, lower, upper, ranks, inv, active),
    ensures
        rank == n,
        forall|v: int|
            0 <= v < n ==> #[trigger] ranks[v] < n && inv[ranks[v] as int] == v,
        forall|q: int|
            0 <= q < n ==> #[trigger] inv[q] < n && ranks[inv[q] as int] == q,
        forall|v: int| 0 <= v < n ==> #[trigger] lower[v] <= ranks[v] < upper[v] <= n,
        forall|v: int, w: int|
            0 <= v < n && 0 <= w < n && #[trigger] overlaps_in(s, n, v, w) ==> lower[v]
                <= ranks[w] < upper[v],        forall|v: int, w: int|
            #![trigger ranks[v], ranks[w]]
            0 <= v < n && 0 <= w < n && position(s, v) < position(s, w) ==> ranks[v] < ranks[w],
        forall|v: int, w: int|
            #![trigger ranks[w], upper[v]]
            0 <= v < n && 0 <= w < n ==> (position(s, w) < position(s, n + v) ==> ranks[w]
                < upper[v]) && (position(s, n + v) < position(s, w) ==> upper[v] <= ranks[w]),
        forall|v: int|
            0 <= v < n ==> #[trigger] lowest_open(s, n, inv[lower[v] as int] as int, v),
        forall|v: int, w: int|
            0 <= v < n && 0 <= w < n && #[trigger] open_at_opening(s, n, w, v) ==> lower[v]
                <= ranks[w],
{
    reveal(x_sweep_state);
        lemma_positions(s, n);
        let rs = ranks;
        assert forall|i: int, j: int| 0 <= i < rs.len() && 0 <= j < rs.len() && rs[i] == rs[j] implies i == j by {
            assert(inv[rs[i] as int] == i);
            assert(inv[rs[j] as int] == j);
        }
        assert forall|i: int| 0 <= i < rs.len() implies rs[i] < rank by {
            assert(ranks[i] < rank);
        }
        lemma_injective_bound(rs, rank);
        assert forall|v: int| 0 <= v < n implies #[trigger] lower[v] <= ranks[v]
            < upper[v] <= n by {
            assert(ranks[v] < upper[v]);
        }
        assert forall|v: int, w: int|
            0 <= v < n && 0 <= w < n && #[trigger] overlaps_in(s, n, v, w) implies lower[v]
            <= ranks[w] < upper[v] by {
            assert(ranks[w] < upper[v]);
            if position(s, w) < position(s, v) {
                assert(open_at_opening(s, n, w, v));
            } else if position(s, v) < position(s, w) {
                assert(ranks[v] < ranks[w]);
                assert(lower[v] <= ranks[v]);
            } else {
                lemma_position(s, n, v);
                lemma_position(s, n, w);
                assert(lower[v] <= ranks[v]);
            }
        }
    }

/// The x-sweep: walks the events in order, ranking volumes as they open,
/// recording the least open rank at each opening and the count of openings
/// at each closing. The ranks follow the order of opening (so each is the
/// number of earlier openings), `upper` lies above every rank opened before
/// the closing and at or below every rank opened after it, and `lower` is
/// the rank of a volume open at the opening and at most every such rank.
/// At most `2^31` events.
#[verifier::rlimit(50)]
pub fn find_candidates(indexes: &Vec<usize>) -> (r: CandidateBounds)
    requires
        indexes@.len() <= 0x8000_0000,
        is_event_order(indexes@, indexes@.len() as int / 2),
    ensures
        r.is_ranking(indexes@.len() as int / 2),
        forall|v: int, w: int|
            0 <= v < indexes@.len() as int / 2 && 0 <= w < indexes@.len() as int / 2
                && #[trigger] overlaps_in(indexes@, indexes@.len() as int / 2, v, w) ==> r.lower@[v]
                <= r.ranks@[w] < r.upper@[v],        forall|v: int, w: int|
            #![trigger r.ranks@[v], r.ranks@[w]]
            0 <= v < indexes@.len() as int / 2 && 0 <= w < indexes@.len() as int / 2 && position(
                indexes@,
                v,
            ) < position(indexes@, w) ==> r.ranks@[v] < r.ranks@[w],
        forall|v: int, w: int|
            #![trigger r.ranks@[w], r.upper@[v]]
            0 <= v < indexes@.len() as int / 2 && 0 <= w < indexes@.len() as int / 2 ==> (position(
                indexes@,
                w,
            ) < position(indexes@, indexes@.len() as int / 2 + v) ==> r.ranks@[w] < r.upper@[v])
                && (position(indexes@, indexes@.len() as int / 2 + v) < position(indexes@, w)
                ==> r.upper@[v] <= r.ranks@[w]),
        forall|v: int|
            0 <= v < indexes@.len() as int / 2 ==> #[trigger] lowest_open(
                indexes@,
                indexes@.len() as int / 2,
                r.ranks_inv@[r.lower@[v] as int] as int,
                v,
            ),
        forall|v: int, w: int|
            0 <= v < indexes@.len() as int / 2 && 0 <= w < indexes@.len() as int / 2
                && #[trigger] open_at_opening(indexes@, indexes@.len() as int / 2, w, v)
                ==> r.lower@[v] <= r.ranks@[w],
{
    let ghost s = indexes@;
    let num_volumes = indexes.len() / 2;
    let ghost n = num_volumes as int;
    let mut active_volumes = SuccinctSet::new(num_volumes as u32);
    let mut rank: usize = 0;
    let mut bounds = CandidateBounds::new(num_volumes);
    let mut t: usize = 0;
    proof {
        reveal(x_sweep_state);
        lemma_positions(s, n);
        assert(active_volumes.members() =~= Set::new(
            |q: int| 0 <= q < rank && t <= position(s, n + bounds.ranks_inv@[q]),
        ));
        assert(x_sweep_state(
            s,
            n,
            0,
            0,
            bounds.lower@,
            bounds.upper@,
            bounds.ranks@,
            bounds.ranks_inv@,
            active_volumes.members(),
        ));
    }
    while t < indexes.len()
        invariant
            s == indexes@,
            is_event_order(s, n),
            n == num_volumes,
            s.len() <= 0x8000_0000,
            active_volumes.wf(),
            n <= pow64(active_volumes.height()),
            bounds.lower@.len() == n,
            bounds.upper@.len() == n,
            bounds.ranks@.len() == n,
            bounds.ranks_inv@.len() == n,
            t <= s.len(),
            x_sweep_state(
                s,
                n,
                t as int,
                rank as int,
                bounds.lower@,
                bounds.upper@,
                bounds.ranks@,
                bounds.ranks_inv@,
                active_volumes.members(),
            ),
        decreases s.len() - t,
    {
        let index = indexes[t];
        if index < num_volumes {
            let volume_id = index;
            proof {
                lemma_rank_available(
                    s,
                    n,
                    t as int,
                    rank as int,
                    bounds.lower@,
                    bounds.upper@,
                    bounds.ranks@,
                    bounds.ranks_inv@,
                    active_volumes.members(),
                );
            }
            let ghost before = bounds;
            let ghost members_before = active_volumes.members();
            bounds.ranks.set(volume_id, rank);
            bounds.ranks_inv.set(rank, volume_id);
            active_volumes.insert(rank);
            let lowest = match active_volumes.min() {
                Some(m) => m,
                None => {
                    assert(active_volumes.members().contains(rank as int));
                    0
                },
            };
            bounds.lower.set(volume_id, lowest);
            proof {
                lemma_open_step(
                    s,
                    n,
                    t as int,
                    rank as int,
                    before.lower@,
                    before.upper@,
                    before.ranks@,
                    before.ranks_inv@,
                    members_before,
                    lowest,
                );
            }
            rank = rank + 1;
        } else {
            let volume_id = index - num_volumes;
            proof {
                lemma_close_step(
                    s,
                    n,
                    t as int,
                    rank as int,
                    bounds.lower@,
                    bounds.upper@,
                    bounds.ranks@,
                    bounds.ranks_inv@,
                    active_volumes.members(),
                );
            }
            bounds.upper.set(volume_id, rank);
            let volume_rank = bounds.ranks[volume_id];
            active_volumes.remove(volume_rank);
        }
        t = t + 1;
    }
    proof {
        lemma_x_sweep_done(
            s,
            n,
            rank as int,
            bounds.lower@,
            bounds.upper@,
            bounds.ranks@,
            bounds.ranks_inv@,
            active_volumes.members(),
        );
    }
    bounds
}

/// Extents `a` and `b` meet, touching included.
pub open spec fn touches(a: (u64, u64), b: (u64, u64)) -> bool {
    a.0 <= b.1 && b.0 <= a.1
}

/// Extents `a` and `b` share an interval of positive length.
pub open spec fn overlaps_strictly(a: (u64, u64), b: (u64, u64)) -> bool {
    a.1 > b.0 && a.0 < b.1
}

/// The pair `(a, b)` is one the y-sweep emits: at `a`'s opening on y, `b`
/// was open, its x-rank lay in `a`'s window, and their z-extents overlap.
pub open spec fn emitted(
    sy: Seq<usize>,
    n: int,
    lower: Seq<usize>,
    upper: Seq<usize>,
    ranks: Seq<usize>,
    xs: Seq<(u64, u64)>,
    zs: Seq<(u64, u64)>,
    a: int,
    b: int,
) -> bool {
    &&& 0 <= a < n
    &&& 0 <= b < n
    &&& open_at_opening(sy, n, b, a)
    &&& lower[a] <= ranks[b] < upper[a]
    &&& touches(xs[a], xs[b])
    &&& overlaps_strictly(zs[a], zs[b])
}

/// Pair `p` comes before pair `q`: its volume opened earlier on y, or both
/// share that volume and `p`'s partner has the lower x-rank.
pub open spec fn pair_before(
    sy: Seq<usize>,
    ranks: Seq<usize>,
    p: (usize, usize),
    q: (usize, usize),
) -> bool {
    position(sy, p.0 as int) < position(sy, q.0 as int) || (p.0 == q.0 && ranks[p.1 as int]
        < ranks[q.1 as int])
}

/// What the y-sweep knows after its first `t` events.
#[verifier::opaque]
pub open spec fn y_sweep_state(
    sy: Seq<usize>,
    n: int,
    t: int,
    lower: Seq<usize>,
    upper: Seq<usize>,
    ranks: Seq<usize>,
    inv: Seq<usize>,
    xs: Seq<(u64, u64)>,
    zs: Seq<(u64, u64)>,
    active: Set<int>,
    pairs: Seq<(usize, usize)>,
) -> bool {
    &&& 0 <= t <= sy.len()
    &&& active == Set::new(
        |q: int| 0 <= q < n && position(sy, inv[q] as int) < t <= position(sy, n + inv[q]),
    )
    &&& forall|k: int|
        0 <= k < pairs.len() ==> position(sy, #[trigger] pairs[k].0 as int) < t && emitted(
            sy,
            n,
            lower,
            upper,
            ranks,
            xs, zs,
            pairs[k].0 as int,
            pairs[k].1 as int,
        )
    &&& forall|i: int, j: int|
        0 <= i < j < pairs.len() ==> pair_before(sy, ranks, #[trigger] pairs[i], #[trigger] pairs[j])
    &&& forall|a: int, b: int|
        position(sy, a) < t && #[trigger] emitted(sy, n, lower, upper, ranks, xs, zs, a, b)
            ==> pairs.contains((a as usize, b as usize))
}

proof fn lemma_y_start(
    sy: Seq<usize>,
    n: int,
    lower: Seq<usize>,
    upper: Seq<usize>,
    ranks: Seq<usize>,
    inv: Seq<usize>,
    xs: Seq<(u64, u64)>,
    zs: Seq<(u64, u64)>,
)
    requires
        is_event_order(sy, n),
        inv.len() == n,
        forall|q: int| 0 <= q < n ==> #[trigger] inv[q] < n,
    ensures
        y_sweep_state(sy, n, 0, lower, upper, ranks, inv, xs, zs, Set::empty(), Seq::empty()),
{
    reveal(y_sweep_state);
    lemma_positions(sy, n);
    assert forall|a: int, b: int|
        position(sy, a) < 0 && #[trigger] emitted(sy, n, lower, upper, ranks, xs, zs, a, b) implies false by {}
    assert(Set::<int>::empty() =~= Set::new(
        |q: int| 0 <= q < n && position(sy, inv[q] as int) < 0 <= position(sy, n + inv[q]),
    ));
}

#[verifier::rlimit(60)]
proof fn lemma_y_open(
    sy: Seq<usize>,
    n: int,
    t: int,
    b: CandidateBounds,
    xs: Seq<(u64, u64)>,
    zs: Seq<(u64, u64)>,
    active: Set<int>,
    pairs: Seq<(usize, usize)>,
    cand: Seq<usize>,
    pairs2: Seq<(usize, usize)>,
    origin: Seq<int>,
)
    requires
        is_event_order(sy, n),
        b.is_ranking(n),
        zs.len() == n,
        xs.len() == n,
        0 <= t < sy.len(),
        sy[t] < n,
        y_sweep_state(sy, n, t, b.lower@, b.upper@, b.ranks@, b.ranks_inv@, xs, zs, active, pairs),
        forall|a: int, c: int| 0 <= a < c < cand.len() ==> cand[a] < cand[c],
        forall|k: int|
            0 <= k < cand.len() ==> active.contains(#[trigger] cand[k] as int) && b.lower@[sy[t] as int]
                <= cand[k] < b.upper@[sy[t] as int],
        forall|q: int|
            #[trigger] active.contains(q) && b.lower@[sy[t] as int] <= q < b.upper@[sy[t] as int]
                ==> cand.contains(q as usize),
        pairs2.len() == pairs.len() + origin.len(),
        forall|k: int| 0 <= k < pairs.len() ==> pairs2[k] == pairs[k],
        forall|k: int|
            0 <= k < origin.len() ==> 0 <= #[trigger] origin[k] < cand.len() && pairs2[pairs.len()
                + k] == (sy[t], b.ranks_inv@[cand[origin[k]] as int]) && touches(
                xs[sy[t] as int],
                xs[b.ranks_inv@[cand[origin[k]] as int] as int],
            ) && overlaps_strictly(
                zs[sy[t] as int],
                zs[b.ranks_inv@[cand[origin[k]] as int] as int],
            ),
        forall|a: int, c: int| 0 <= a < c < origin.len() ==> origin[a] < origin[c],
        forall|m: int|
            0 <= m < cand.len() && touches(
                xs[sy[t] as int],
                xs[b.ranks_inv@[#[trigger] cand[m] as int] as int],
            ) && overlaps_strictly(
                zs[sy[t] as int],
                zs[b.ranks_inv@[cand[m] as int] as int],
            ) ==> pairs2.contains((sy[t], b.ranks_inv@[cand[m] as int])),
    ensures
        y_sweep_state(
            sy,
            n,
            t + 1,
            b.lower@,
            b.upper@,
            b.ranks@,
            b.ranks_inv@,
            xs, zs,
            active.insert(b.ranks@[sy[t] as int] as int),
            pairs2,
        ),
{
    reveal(y_sweep_state);
    lemma_event(sy, n, t);
    lemma_positions(sy, n);
    let v = sy[t] as int;
    let inv = b.ranks_inv@;
    let ranks = b.ranks@;
    assert(inv[ranks[v] as int] == v);
    assert forall|q: int|
        0 <= q < n implies (position(sy, #[trigger] inv[q] as int) < t + 1 <= position(sy, n + inv[q])) == ((
    position(sy, inv[q] as int) < t <= position(sy, n + inv[q])) || q == ranks[v]) by {
        assert(inv[q] < n);
        assert(ranks[inv[q] as int] == q);
        lemma_position(sy, n, inv[q] as int);
        lemma_position(sy, n, n + inv[q]);
    }
    assert(active.insert(ranks[v] as int) =~= Set::new(
        |q: int| 0 <= q < n && position(sy, inv[q] as int) < t + 1 <= position(sy, n + inv[q]),
    ));
    assert forall|k: int| 0 <= k < pairs2.len() implies position(sy, #[trigger] pairs2[k].0 as int)
        < t + 1 && emitted(
        sy,
        n,
        b.lower@,
        b.upper@,
        ranks,
        xs, zs,
        pairs2[k].0 as int,
        pairs2[k].1 as int,
    ) by {
        if k < pairs.len() {
            assert(pairs2[k] == pairs[k]);
        } else {
            let q = cand[origin[k - pairs.len()]] as int;
            assert(active.contains(q));
            assert(ranks[inv[q] as int] == q);
            lemma_position(sy, n, inv[q] as int);
            lemma_position(sy, n, n + inv[q]);
        }
    }
    assert forall|i: int, j: int| 0 <= i < j < pairs2.len() implies pair_before(
        sy,
        ranks,
        #[trigger] pairs2[i],
        #[trigger] pairs2[j],
    ) by {
        if j < pairs.len() {
            assert(pairs2[i] == pairs[i] && pairs2[j] == pairs[j]);
            assert(pair_before(sy, ranks, pairs[i], pairs[j]));
        } else if i < pairs.len() {
            assert(pairs2[i] == pairs[i]);
            assert(position(sy, pairs[i].0 as int) < t);
            assert(0 <= j - pairs.len() < origin.len());
            assert(0 <= origin[j - pairs.len()] < cand.len());
            assert(pairs2[pairs.len() + (j - pairs.len())] == pairs2[j]);
            assert(pairs2[j].0 == sy[t]);
        } else {
            let qi = cand[origin[i - pairs.len()]] as int;
            let qj = cand[origin[j - pairs.len()]] as int;
            assert(pairs2[i] == (sy[t], inv[qi]));
            assert(pairs2[j] == (sy[t], inv[qj]));
            assert(active.contains(qi) && active.contains(qj));
            assert(origin[i - pairs.len()] < origin[j - pairs.len()]);
            assert(qi < qj);
            assert(ranks[inv[qi] as int] == qi);
            assert(ranks[inv[qj] as int] == qj);
        }
    }
    assert forall|a: int, c: int|
        position(sy, a) < t + 1 && #[trigger] emitted(sy, n, b.lower@, b.upper@, ranks, xs, zs, a, c)
            implies pairs2.contains((a as usize, c as usize)) by {
        lemma_position(sy, n, a);
        if position(sy, a) < t {
            assert(pairs.contains((a as usize, c as usize)));
            let k = choose|k: int| 0 <= k < pairs.len() && pairs[k] == (a as usize, c as usize);
            assert(pairs2[k] == pairs[k]);
        } else {
            assert(a == v);
            let q = ranks[c] as int;
            assert(inv[q] == c);
            lemma_position(sy, n, c);
            lemma_position(sy, n, n + c);
            assert(active.contains(q));
            assert(cand.contains(q as usize));
            let m = choose|m: int| 0 <= m < cand.len() && cand[m] == q as usize;
            assert(touches(xs[sy[t] as int], xs[inv[cand[m] as int] as int]));
            assert(overlaps_strictly(zs[sy[t] as int], zs[inv[cand[m] as int] as int]));
        }
    }
}

#[verifier::rlimit(40)]
proof fn lemma_y_close(
    sy: Seq<usize>,
    n: int,
    t: int,
    b: CandidateBounds,
    xs: Seq<(u64, u64)>,
    zs: Seq<(u64, u64)>,
    active: Set<int>,
    pairs: Seq<(usize, usize)>,
)
    requires
        is_event_order(sy, n),
        b.is_ranking(n),
        0 <= t < sy.len(),
        sy[t] >= n,
        y_sweep_state(sy, n, t, b.lower@, b.upper@, b.ranks@, b.ranks_inv@, xs, zs, active, pairs),
    ensures
        0 <= sy[t] - n < n,
        y_sweep_state(
            sy,
            n,
            t + 1,
            b.lower@,
            b.upper@,
            b.ranks@,
            b.ranks_inv@,
            xs, zs,
            active.remove(b.ranks@[sy[t] - n] as int),
            pairs,
        ),
{
    reveal(y_sweep_state);
    lemma_event(sy, n, t);
    lemma_positions(sy, n);
    let v = sy[t] - n;
    let inv = b.ranks_inv@;
    let ranks = b.ranks@;
    assert(inv[ranks[v] as int] == v);
    assert forall|q: int|
        0 <= q < n implies (position(sy, #[trigger] inv[q] as int) < t + 1 <= position(sy, n + inv[q])) == ((
    position(sy, inv[q] as int) < t <= position(sy, n + inv[q])) && q != ranks[v]) by {
        assert(inv[q] < n);
        assert(ranks[inv[q] as int] == q);
        lemma_position(sy, n, inv[q] as int);
        lemma_position(sy, n, n + inv[q]);
    }
    assert(active.remove(ranks[v] as int) =~= Set::new(
        |q: int| 0 <= q < n && position(sy, inv[q] as int) < t + 1 <= position(sy, n + inv[q]),
    ));
    assert forall|k: int| 0 <= k < pairs.len() implies position(sy, #[trigger] pairs[k].0 as int)
        < t + 1 by {}
    assert forall|a: int, c: int|
        position(sy, a) < t + 1 && #[trigger] emitted(sy, n, b.lower@, b.upper@, ranks, xs, zs, a, c)
            implies pairs.contains((a as usize, c as usize)) by {
        lemma_position(sy, n, a);
    }
}


/// A volume as seen by the engine: a `(lower, upper)` pair of
/// order-preserving keys (see `coordinate_key`) on each axis.
pub trait Aabb {
    spec fn extent_x(&self) -> (u64, u64);

    spec fn extent_y(&self) -> (u64, u64);

    spec fn extent_z(&self) -> (u64, u64);

    fn project_x(&self) -> (r: (u64, u64))
        ensures
            r == self.extent_x(),
    ;

    fn project_y(&self) -> (r: (u64, u64))
        ensures
            r == self.extent_y(),
    ;

    fn project_z(&self) -> (r: (u64, u64))
        ensures
            r == self.extent_z(),
    ;
}

/// An axis-aligned box given by its three extents.
#[derive(Clone, Copy, Debug, PartialEq, Eq)]
pub struct BoundingBox {
    pub x: (u64, u64),
    pub y: (u64, u64),
    pub z: (u64, u64),
}

impl Aabb for BoundingBox {
    open spec fn extent_x(&self) -> (u64, u64) {
        self.x
    }

    open spec fn extent_y(&self) -> (u64, u64) {
        self.y
    }

    open spec fn extent_z(&self) -> (u64, u64) {
        self.z
    }

    fn project_x(&self) -> (r: (u64, u64)) {
        self.x
    }

    fn project_y(&self) -> (r: (u64, u64)) {
        self.y
    }

    fn project_z(&self) -> (r: (u64, u64)) {
        self.z
    }
}

pub open spec fn x_extents<T: Aabb>(vs: Seq<T>) -> Seq<(u64, u64)> {
    vs.map_values(|b: T| b.extent_x())
}

pub open spec fn y_extents<T: Aabb>(vs: Seq<T>) -> Seq<(u64, u64)> {
    vs.map_values(|b: T| b.extent_y())
}

pub open spec fn z_extents<T: Aabb>(vs: Seq<T>) -> Seq<(u64, u64)> {
    vs.map_values(|b: T| b.extent_z())
}

/// The y-sweep's result: exactly the emitted pairs, each once.
pub open spec fn y_sweep_done(
    sy: Seq<usize>,
    n: int,
    lower: Seq<usize>,
    upper: Seq<usize>,
    ranks: Seq<usize>,
    xs: Seq<(u64, u64)>,
    zs: Seq<(u64, u64)>,
    pairs: Seq<(usize, usize)>,
) -> bool {
    &&& forall|k: int|
        0 <= k < pairs.len() ==> emitted(
            sy,
            n,
            lower,
            upper,
            ranks,
            xs, zs,
            #[trigger] pairs[k].0 as int,
            pairs[k].1 as int,
        )
    &&& forall|i: int, j: int|
        0 <= i < j < pairs.len() ==> pair_before(sy, ranks, #[trigger] pairs[i], #[trigger] pairs[j])
    &&& forall|a: int, b: int|
        #[trigger] emitted(sy, n, lower, upper, ranks, xs, zs, a, b) ==> pairs.contains(
            (a as usize, b as usize),
        )
}

proof fn lemma_y_done(
    sy: Seq<usize>,
    n: int,
    lower: Seq<usize>,
    upper: Seq<usize>,
    ranks: Seq<usize>,
    inv: Seq<usize>,
    xs: Seq<(u64, u64)>,
    zs: Seq<(u64, u64)>,
    active: Set<int>,
    pairs: Seq<(usize, usize)>,
)
    requires
        is_event_order(sy, n),
        y_sweep_state(sy, n, sy.len() as int, lower, upper, ranks, inv, xs, zs, active, pairs),
    ensures
        y_sweep_done(sy, n, lower, upper, ranks, xs, zs, pairs),
{
    reveal(y_sweep_state);
    lemma_positions(sy, n);
    assert forall|a: int, b: int| #[trigger] emitted(sy, n, lower, upper, ranks, xs, zs, a, b) implies pairs.contains(
        (a as usize, b as usize),
    ) by {
        lemma_position(sy, n, a);
    }
}
/// The y-sweep: at each opening, pairs the volume with every volume still
/// open on y whose x-rank lies in its window, whose x-extent meets its own
/// and whose z-extent overlaps its own. Pairs come in the order of their
/// first volume's opening, then of their second's x-rank. At most `2^31`
/// events.
#[verifier::rlimit(60)]
pub fn find_pairs(
    sorted_indexes: &Vec<usize>,
    bounds: &CandidateBounds,
    extents_x: &Vec<(u64, u64)>,
    extents_z: &Vec<(u64, u64)>,
) -> (r: Vec<(usize, usize)>)
    requires
        sorted_indexes@.len() <= 0x8000_0000,
        is_event_order(sorted_indexes@, sorted_indexes@.len() as int / 2),
        bounds.is_ranking(sorted_indexes@.len() as int / 2),
        extents_x@.len() == sorted_indexes@.len() as int / 2,
        extents_z@.len() == sorted_indexes@.len() as int / 2,
    ensures
        y_sweep_done(
            sorted_indexes@,
            sorted_indexes@.len() as int / 2,
            bounds.lower@,
            bounds.upper@,
            bounds.ranks@,
            extents_x@,
            extents_z@,
            r@,
        ),
{
    let ghost sy = sorted_indexes@;
    let num_volumes = sorted_indexes.len() / 2;
    let ghost n = num_volumes as int;
    let ghost zs = extents_z@;
    let ghost xs = extents_x@;
    let mut active_ranks = SuccinctSet::new(num_volumes as u32);
    let mut pairs: Vec<(usize, usize)> = Vec::new();
    proof {
        lemma_y_start(sy, n, bounds.lower@, bounds.upper@, bounds.ranks@, bounds.ranks_inv@, xs, zs);
        assert(active_ranks.members() =~= Set::<int>::empty());
    }
    let mut t: usize = 0;
    while t < sorted_indexes.len()
        invariant
            sy == sorted_indexes@,
            is_event_order(sy, n),
            n == num_volumes,
            sy.len() <= 0x8000_0000,
            bounds.is_ranking(n),
            zs == extents_z@,
            zs.len() == n,
            xs == extents_x@,
            xs.len() == n,
            active_ranks.wf(),
            n <= pow64(active_ranks.height()),
            t <= sy.len(),
            y_sweep_state(
                sy,
                n,
                t as int,
                bounds.lower@,
                bounds.upper@,
                bounds.ranks@,
                bounds.ranks_inv@,
                xs, zs,
                active_ranks.members(),
                pairs@,
            ),
        decreases sy.len() - t,
    {
        let index = sorted_indexes[t];
        proof {
            lemma_event(sy, n, t as int);
        }
        if index < num_volumes {
            let left = index;
            let candidates = active_ranks.range(bounds.lower[left], bounds.upper[left]);
            let ghost base = pairs@;
            let ghost mut origin: Seq<int> = Seq::empty();
            let mut c: usize = 0;
            while c < candidates.len()
                invariant
                    left < n,
                    bounds.is_ranking(n),
                    zs == extents_z@,
                    zs.len() == n,
                    xs == extents_x@,
                    xs.len() == n,
                    c <= candidates@.len(),
                    forall|k: int|
                        0 <= k < candidates@.len() ==> #[trigger] candidates@[k] < bounds.upper@[left as int],
                    bounds.upper@[left as int] <= n,
                    pairs@.len() == base.len() + origin.len(),
                    forall|k: int| 0 <= k < base.len() ==> pairs@[k] == base[k],
                    forall|k: int|
                        0 <= k < origin.len() ==> 0 <= #[trigger] origin[k] < c && pairs@[base.len()
                            + k] == (left, bounds.ranks_inv@[candidates@[origin[k]] as int])
                            && touches(
                            xs[left as int],
                            xs[bounds.ranks_inv@[candidates@[origin[k]] as int] as int],
                        ) && overlaps_strictly(
                            zs[left as int],
                            zs[bounds.ranks_inv@[candidates@[origin[k]] as int] as int],
                        ),
                    forall|a: int, b: int| 0 <= a < b < origin.len() ==> origin[a] < origin[b],
                    forall|m: int|
                        0 <= m < c && touches(
                            xs[left as int],
                            xs[bounds.ranks_inv@[#[trigger] candidates@[m] as int] as int],
                        ) && overlaps_strictly(
                            zs[left as int],
                            zs[bounds.ranks_inv@[candidates@[m] as int] as int],
                        ) ==> pairs@.contains((left, bounds.ranks_inv@[candidates@[m] as int])),
                decreases candidates@.len() - c,
            {
                let right = bounds.ranks_inv[candidates[c]];
                let left_x = extents_x[left];
                let right_x = extents_x[right];
                let left_extent = extents_z[left];
                let right_extent = extents_z[right];
                let ghost before = pairs@;
                if left_x.0 <= right_x.1 && right_x.0 <= left_x.1 && left_extent.1 > right_extent.0
                    && left_extent.0 < right_extent.1 {
                    pairs.push((left, right));
                    proof {
                        origin = origin.push(c as int);
                    }
                }
                proof {
                    assert forall|m: int|
                        0 <= m < c + 1 && touches(
                            xs[left as int],
                            xs[bounds.ranks_inv@[#[trigger] candidates@[m] as int] as int],
                        ) && overlaps_strictly(
                            zs[left as int],
                            zs[bounds.ranks_inv@[candidates@[m] as int] as int],
                        ) implies pairs@.contains((left, bounds.ranks_inv@[candidates@[m] as int])) by {
                        if m < c {
                            let k = choose|k: int|
                                0 <= k < before.len() && before[k] == (
                                    left,
                                    bounds.ranks_inv@[candidates@[m] as int],
                                );
                            assert(pairs@[k] == before[k]);
                        } else {
                            assert(pairs@[pairs@.len() - 1] == (left, right));
                        }
                    }
                }
                c = c + 1;
            }
            proof {
                lemma_y_open(
                    sy,
                    n,
                    t as int,
                    *bounds,
                    xs, zs,
                    active_ranks.members(),
                    base,
                    candidates@,
                    pairs@,
                    origin,
                );
            }
            active_ranks.insert(bounds.ranks[left]);
        } else {
            proof {
                lemma_y_close(
                    sy,
                    n,
                    t as int,
                    *bounds,
                    xs, zs,
                    active_ranks.members(),
                    pairs@,
                );
            }
            active_ranks.remove(bounds.ranks[index - num_volumes]);
        }
        t = t + 1;
    }
    proof {
        lemma_y_done(
            sy,
            n,
            bounds.lower@,
            bounds.upper@,
            bounds.ranks@,
            bounds.ranks_inv@,
            xs, zs,
            active_ranks.members(),
            pairs@,
        );
    }
    pairs
}

/// Pair `p` is listed before pair `q`: its first volume opens earlier on y,
/// or both share the first volume and `p`'s second opens earlier on x.
pub open spec fn pair_in_order(
    xs: Seq<(u64, u64)>,
    ys: Seq<(u64, u64)>,
    p: (usize, usize),
    q: (usize, usize),
) -> bool {
    opens_before(ys[p.0 as int], p.0 as int, ys[q.0 as int], q.0 as int) || (p.0 == q.0
        && opens_before(xs[p.1 as int], p.1 as int, xs[q.1 as int], q.1 as int))
}

/// On one axis, the volume `b` with extent `eb` opens before the volume `a`
/// with extent `ea`: a lower key first, ties by index.
pub open spec fn opens_before(eb: (u64, u64), b: int, ea: (u64, u64), a: int) -> bool {
    eb.0 < ea.0 || (eb.0 == ea.0 && b < a)
}

/// The endpoint keys of `n` extents: the `n` lower bounds, then the `n`
/// upper bounds.
pub open spec fn endpoint_keys(ext: Seq<(u64, u64)>) -> Seq<int> {
    Seq::new(
        2 * ext.len(),
        |i: int|
            if i < ext.len() {
                ext[i].0 as int
            } else {
                ext[i - ext.len()].1 as int
            },
    )
}

/// The endpoint keys of a set of extents on one axis.
pub struct Endpoints(pub Vec<u64>);

impl Endpoints {
    pub fn new(extents: &Vec<(u64, u64)>) -> (r: Self)
        requires
            extents@.len() <= 0x8000_0000,
        ensures
            keys_as_int(r.0@) == endpoint_keys(extents@),
    {
        let r = Endpoints(unzip_extents(extents));
        r
    }

    /// The endpoints in ascending key order, ties kept in their order (so
    /// at an equal key an opening comes before a closing).
    pub fn sort(&self) -> (r: Vec<usize>)
        ensures
            is_argsort(keys_as_int(self.0@), r@),
    {
        proof {
            assert(radix_pow(8) == 0x1_0000_0000_0000_0000) by {
                reveal_with_fuel(radix_pow, 9);
            }
        }
        argsort(self.0.as_slice(), 64)
    }
}

/// The lower bounds followed by the upper bounds.
fn unzip_extents(extents: &Vec<(u64, u64)>) -> (r: Vec<u64>)
    requires
        extents@.len() <= 0x8000_0000,
    ensures
        keys_as_int(r@) == endpoint_keys(extents@),
{
    let n = extents.len();
    let mut r: Vec<u64> = Vec::new();
    let mut i: usize = 0;
    while i < n
        invariant
            n == extents@.len(),
            i <= n,
            r@.len() == i,
            forall|k: int| 0 <= k < i ==> r@[k] == extents@[k].0,
        decreases n - i,
    {
        r.push(extents[i].0);
        i = i + 1;
    }
    let mut i: usize = 0;
    while i < n
        invariant
            n == extents@.len(),
            n <= 0x8000_0000,
            i <= n,
            r@.len() == n + i,
            forall|k: int| 0 <= k < n ==> r@[k] == extents@[k].0,
            forall|k: int| 0 <= k < i ==> r@[n + k] == extents@[k].1,
        decreases n - i,
    {
        r.push(extents[i].1);
        i = i + 1;
    }
    assert(keys_as_int(r@) =~= endpoint_keys(extents@));
    r
}

/// In an argsort, keys that come first in (key, position) order stand first.
proof fn lemma_sorted_order(keys: Seq<int>, s: Seq<usize>)
    requires
        is_argsort(keys, s),
    ensures
        forall|e: int| 0 <= e < keys.len() ==> 0 <= #[trigger] position(s, e) < s.len() && s[position(s, e)] == e,
        forall|a: int, b: int|
            0 <= a < keys.len() && 0 <= b < keys.len() && a != b && (keys[a] < keys[b] || (keys[a]
                == keys[b] && a < b)) ==> #[trigger] position(s, a) < #[trigger] position(s, b),
{
    lemma_argsort_is_permutation(keys, s);
    assert forall|e: int| 0 <= e < keys.len() implies 0 <= #[trigger] position(s, e) < s.len() && s[position(s, e)] == e by {
        assert(occurs(s, e));
    }
    assert forall|a: int, b: int|
        0 <= a < keys.len() && 0 <= b < keys.len() && a != b && (keys[a] < keys[b] || (keys[a] == keys[b] && a
            < b)) implies #[trigger] position(s, a) < #[trigger] position(s, b) by {
        let pa = position(s, a);
        let pb = position(s, b);
        if pb < pa {
            assert(keys[s[pb] as int] < keys[s[pa] as int] || (keys[s[pb] as int] == keys[s[pa] as int]
                && s[pb] < s[pa]));
        }
    }
}

/// An argsort of endpoint keys whose extents have `lo <= hi` is an event
/// order.
proof fn lemma_sorted_events(ext: Seq<(u64, u64)>, s: Seq<usize>)
    requires
        is_argsort(endpoint_keys(ext), s),
        forall|i: int| 0 <= i < ext.len() ==> #[trigger] ext[i].0 <= ext[i].1,
    ensures
        s.len() == 2 * ext.len(),
        is_event_order(s, ext.len() as int),
{
    let n = ext.len() as int;
    let keys = endpoint_keys(ext);
    lemma_argsort_is_permutation(keys, s);
    lemma_sorted_order(keys, s);
    reveal(is_event_order);
    assert forall|v: int| 0 <= v < n implies #[trigger] position(s, v) < position(s, n + v) by {
        assert(ext[v].0 <= ext[v].1);
        assert(keys[v] <= keys[n + v]);
    }
}

/// Exactly the pairs of distinct volumes whose boxes meet on x and y and
/// overlap on z, each once, as `(a, b)` with `b` the earlier to open on y.
/// At most `2^30` volumes, the bit-tree's largest universe.
pub fn sweep_and_prune<T: Aabb>(volumes: &Vec<T>) -> (r: Vec<(usize, usize)>)
    requires
        volumes@.len() <= 0x4000_0000,
        forall|i: int|
            0 <= i < volumes@.len() ==> #[trigger] volumes@[i].extent_x().0 <= volumes@[i].extent_x().1
                && volumes@[i].extent_y().0 <= volumes@[i].extent_y().1,
    ensures
        forall|k: int|
            #![trigger r@[k]]
            0 <= k < r@.len() ==> {
                let (a, b) = r@[k];
                &&& a < volumes@.len() && b < volumes@.len() && a != b
                &&& touches(volumes@[a as int].extent_x(), volumes@[b as int].extent_x())
                &&& touches(volumes@[a as int].extent_y(), volumes@[b as int].extent_y())
                &&& overlaps_strictly(volumes@[a as int].extent_z(), volumes@[b as int].extent_z())
                &&& opens_before(volumes@[b as int].extent_y(), b as int, volumes@[a as int].extent_y(), a as int)
            },
        forall|i: int, j: int|
            0 <= i < j < r@.len() ==> #[trigger] r@[i] != #[trigger] r@[j] && r@[i] != (
                r@[j].1,
                r@[j].0,
            ),
        is_collision_list(x_extents(volumes@), y_extents(volumes@), z_extents(volumes@), r@),
        forall|i: int, j: int|
            0 <= i < j < r@.len() ==> pair_in_order(
                x_extents(volumes@),
                y_extents(volumes@),
                #[trigger] r@[i],
                #[trigger] r@[j],
            ),
        forall|v: int, w: int|
            0 <= v < volumes@.len() && 0 <= w < volumes@.len() && v != w && #[trigger] touches(
                volumes@[v].extent_x(),
                volumes@[w].extent_x(),
            ) && #[trigger] touches(volumes@[v].extent_y(), volumes@[w].extent_y())
                && overlaps_strictly(volumes@[v].extent_z(), volumes@[w].extent_z()) ==> r@.contains(
                (v as usize, w as usize),
            ) || r@.contains((w as usize, v as usize)),
{
    let n = volumes.len();
    let mut extents_x: Vec<(u64, u64)> = Vec::new();
    let mut extents_y: Vec<(u64, u64)> = Vec::new();
    let mut extents_z: Vec<(u64, u64)> = Vec::new();
    let mut i: usize = 0;
    while i < n
        invariant
            n == volumes@.len(),
            i <= n,
            extents_x@ == x_extents(volumes@).take(i as int),
            extents_y@ == y_extents(volumes@).take(i as int),
            extents_z@ == z_extents(volumes@).take(i as int),
        decreases n - i,
    {
        extents_x.push(volumes[i].project_x());
        extents_y.push(volumes[i].project_y());
        extents_z.push(volumes[i].project_z());
        proof {
            assert(x_extents(volumes@).take(i + 1) =~= x_extents(volumes@).take(i as int).push(
                volumes@[i as int].extent_x(),
            ));
            assert(y_extents(volumes@).take(i + 1) =~= y_extents(volumes@).take(i as int).push(
                volumes@[i as int].extent_y(),
            ));
            assert(z_extents(volumes@).take(i + 1) =~= z_extents(volumes@).take(i as int).push(
                volumes@[i as int].extent_z(),
            ));
        }
        i = i + 1;
    }
    let ghost xs = x_extents(volumes@);
    let ghost ys = y_extents(volumes@);
    let ghost zs = z_extents(volumes@);
    assert(extents_x@ =~= xs);
    assert(extents_y@ =~= ys);
    assert(extents_z@ =~= zs);
    proof {
        assert forall|i: int| 0 <= i < xs.len() implies #[trigger] xs[i].0 <= xs[i].1 && ys[i].0
            <= ys[i].1 by {
            assert(volumes@[i].extent_x().0 <= volumes@[i].extent_x().1);
        }
    }
    let sorted_indexes_x = Endpoints::new(&extents_x).sort();
    proof {
        lemma_sorted_events(xs, sorted_indexes_x@);
    }
    let candidate_bounds_x = find_candidates(&sorted_indexes_x);
    let sorted_indexes_y = Endpoints::new(&extents_y).sort();
    proof {
        assert forall|i: int| 0 <= i < ys.len() implies #[trigger] ys[i].0 <= ys[i].1 by {
            assert(xs[i].0 <= xs[i].1);
        }
        lemma_sorted_events(ys, sorted_indexes_y@);
    }
    let pairs = find_pairs(&sorted_indexes_y, &candidate_bounds_x, &extents_x, &extents_z);
    proof {
        lemma_pairs_meet(xs, ys, zs, sorted_indexes_x@, sorted_indexes_y@, candidate_bounds_x, pairs@);
        assert forall|v: int, w: int|
            0 <= v < n && 0 <= w < n && v != w && #[trigger] touches(
                volumes@[v].extent_x(),
                volumes@[w].extent_x(),
            ) && #[trigger] touches(volumes@[v].extent_y(), volumes@[w].extent_y())
                && overlaps_strictly(volumes@[v].extent_z(), volumes@[w].extent_z()) implies pairs@.contains(
                (v as usize, w as usize),
            ) || pairs@.contains((w as usize, v as usize)) by {
            assert(touches(xs[v], xs[w]));
            assert(touches(ys[v], ys[w]));
        }
    }
    pairs
}

/// What the two sweeps' contracts give about the pairs, stated over the
/// extents.
#[verifier::rlimit(40)]
proof fn lemma_pairs_meet(
    xs: Seq<(u64, u64)>,
    ys: Seq<(u64, u64)>,
    zs: Seq<(u64, u64)>,
    sx: Seq<usize>,
    sy: Seq<usize>,
    b: CandidateBounds,
    pairs: Seq<(usize, usize)>,
)
    requires
        ys.len() == xs.len(),
        zs.len() == xs.len(),
        forall|i: int| 0 <= i < xs.len() ==> #[trigger] xs[i].0 <= xs[i].1 && ys[i].0 <= ys[i].1,
        is_argsort(endpoint_keys(xs), sx),
        is_argsort(endpoint_keys(ys), sy),
        b.is_ranking(xs.len() as int),
        forall|v: int, w: int|
            0 <= v < xs.len() && 0 <= w < xs.len() && #[trigger] overlaps_in(sx, xs.len() as int, v, w)
                ==> b.lower@[v] <= b.ranks@[w] < b.upper@[v],
        y_sweep_done(sy, xs.len() as int, b.lower@, b.upper@, b.ranks@, xs, zs, pairs),
        forall|v: int, w: int|
            #![trigger b.ranks@[v], b.ranks@[w]]
            0 <= v < xs.len() && 0 <= w < xs.len() && position(sx, v) < position(sx, w)
                ==> b.ranks@[v] < b.ranks@[w],
    ensures
        forall|i: int, j: int|
            0 <= i < j < pairs.len() ==> pair_in_order(xs, ys, #[trigger] pairs[i], #[trigger] pairs[j]),
        forall|k: int|
            #![trigger pairs[k]]
            0 <= k < pairs.len() ==> {
                let (a, c) = pairs[k];
                &&& a < xs.len() && c < xs.len() && a != c
                &&& touches(xs[a as int], xs[c as int])
                &&& touches(ys[a as int], ys[c as int])
                &&& overlaps_strictly(zs[a as int], zs[c as int])
                &&& opens_before(ys[c as int], c as int, ys[a as int], a as int)
            },
        forall|i: int, j: int|
            0 <= i < j < pairs.len() ==> #[trigger] pairs[i] != #[trigger] pairs[j] && pairs[i] != (
                pairs[j].1,
                pairs[j].0,
            ),
        forall|v: int, w: int|
            0 <= v < xs.len() && 0 <= w < xs.len() && v != w && #[trigger] touches(xs[v], xs[w])
                && #[trigger] touches(ys[v], ys[w]) && overlaps_strictly(zs[v], zs[w])
                ==> pairs.contains((v as usize, w as usize)) || pairs.contains((w as usize, v as usize)),
{
    let n = xs.len() as int;
    assert forall|i: int| 0 <= i < ys.len() implies #[trigger] ys[i].0 <= ys[i].1 by {
        assert(xs[i].0 <= xs[i].1);
    }
    lemma_sorted_events(xs, sx);
    lemma_sorted_events(ys, sy);
    lemma_sorted_order(endpoint_keys(xs), sx);
    lemma_sorted_order(endpoint_keys(ys), sy);
    lemma_positions(sy, n);
    let ky = endpoint_keys(ys);
    assert forall|k: int| #![trigger pairs[k]] 0 <= k < pairs.len() implies {
        let (a, c) = pairs[k];
        &&& a < xs.len() && c < xs.len() && a != c
        &&& touches(xs[a as int], xs[c as int])
        &&& touches(ys[a as int], ys[c as int])
        &&& overlaps_strictly(zs[a as int], zs[c as int])
        &&& opens_before(ys[c as int], c as int, ys[a as int], a as int)
    } by {
        let a = pairs[k].0 as int;
        let c = pairs[k].1 as int;
        assert(emitted(sy, n, b.lower@, b.upper@, b.ranks@, xs, zs, a, c));
        assert(ky[a] == ys[a].0 as int);
        assert(ky[c] == ys[c].0 as int);
        assert(ky[n + c] == ys[c].1 as int);
        if ky[a] < ky[c] || (ky[a] == ky[c] && a < c) {
            assert(position(sy, a) < position(sy, c));
        }
        if ky[n + c] < ky[a] {
            assert(position(sy, n + c) < position(sy, a));
        }
    }
    let kx = endpoint_keys(xs);
    assert forall|i: int, j: int| 0 <= i < j < pairs.len() implies pair_in_order(
        xs,
        ys,
        #[trigger] pairs[i],
        #[trigger] pairs[j],
    ) by {
        let (a, c) = pairs[i];
        let (d, e) = pairs[j];
        assert(emitted(sy, n, b.lower@, b.upper@, b.ranks@, xs, zs, a as int, c as int));
        assert(emitted(sy, n, b.lower@, b.upper@, b.ranks@, xs, zs, d as int, e as int));
        assert(pair_before(sy, b.ranks@, pairs[i], pairs[j]));
        assert(ky[a as int] == ys[a as int].0 as int && ky[d as int] == ys[d as int].0 as int);
        assert(kx[c as int] == xs[c as int].0 as int && kx[e as int] == xs[e as int].0 as int);
        if position(sy, a as int) < position(sy, d as int) {
            if ky[d as int] < ky[a as int] || (ky[d as int] == ky[a as int] && d < a) {
                assert(position(sy, d as int) < position(sy, a as int));
            }
        } else {
            lemma_sorted_order(kx, sx);
            if position(sx, e as int) < position(sx, c as int) {
                assert(b.ranks@[e as int] < b.ranks@[c as int]);
            }
            if kx[e as int] < kx[c as int] || (kx[e as int] == kx[c as int] && e < c) {
                assert(position(sx, e as int) < position(sx, c as int));
            }
        }
    }
    assert forall|i: int, j: int| 0 <= i < j < pairs.len() implies #[trigger] pairs[i]
        != #[trigger] pairs[j] && pairs[i] != (pairs[j].1, pairs[j].0) by {
        let a = pairs[j].0 as int;
        let c = pairs[j].1 as int;
        assert(emitted(sy, n, b.lower@, b.upper@, b.ranks@, xs, zs, a, c));
        assert(emitted(
            sy,
            n,
            b.lower@,
            b.upper@,
            b.ranks@,
            xs, zs,
            pairs[i].0 as int,
            pairs[i].1 as int,
        ));
    }
    assert forall|v: int, w: int|
        0 <= v < n && 0 <= w < n && v != w && #[trigger] touches(xs[v], xs[w]) && #[trigger] touches(
            ys[v],
            ys[w],
        ) && overlaps_strictly(zs[v], zs[w]) implies pairs.contains((v as usize, w as usize))
        || pairs.contains((w as usize, v as usize)) by {
        let kx = endpoint_keys(xs);
        assert(kx[v] == xs[v].0 as int && kx[n + v] == xs[v].1 as int);
        assert(kx[w] == xs[w].0 as int && kx[n + w] == xs[w].1 as int);
        assert(ky[v] == ys[v].0 as int && ky[n + v] == ys[v].1 as int);
        assert(ky[w] == ys[w].0 as int && ky[n + w] == ys[w].1 as int);
        assert(position(sx, w) < position(sx, n + v));
        assert(position(sx, v) < position(sx, n + w));
        assert(overlaps_in(sx, n, v, w));
        assert(overlaps_in(sx, n, w, v));
        assert(position(sy, w) < position(sy, n + v));
        assert(position(sy, v) < position(sy, n + w));
        lemma_position(sy, n, v);
        lemma_position(sy, n, w);
        if position(sy, w) < position(sy, v) {
            assert(emitted(sy, n, b.lower@, b.upper@, b.ranks@, xs, zs, v, w));
        } else {
            assert(emitted(sy, n, b.lower@, b.upper@, b.ranks@, xs, zs, w, v));
        }
    }
}

/// `r` lists, each once, exactly the pairs of distinct volumes whose extents
/// meet on x and y and overlap on z; each as `(a, b)` with `b` the earlier
/// to open on y, in the order of `pair_in_order`.
pub open spec fn is_collision_list(
    xs: Seq<(u64, u64)>,
    ys: Seq<(u64, u64)>,
    zs: Seq<(u64, u64)>,
    r: Seq<(usize, usize)>,
) -> bool {
    &&& forall|k: int|
        #![trigger r[k]]
        0 <= k < r.len() ==> {
            let (a, c) = r[k];
            &&& a < xs.len() && c < xs.len() && a != c
            &&& touches(xs[a as int], xs[c as int])
            &&& touches(ys[a as int], ys[c as int])
            &&& overlaps_strictly(zs[a as int], zs[c as int])
            &&& opens_before(ys[c as int], c as int, ys[a as int], a as int)
        }
    &&& forall|i: int, j: int|
        0 <= i < j < r.len() ==> pair_in_order(xs, ys, #[trigger] r[i], #[trigger] r[j])
    &&& forall|v: int, w: int|
        0 <= v < xs.len() && 0 <= w < xs.len() && v != w && #[trigger] touches(xs[v], xs[w])
            && #[trigger] touches(ys[v], ys[w]) && overlaps_strictly(zs[v], zs[w]) ==> r.contains(
            (v as usize, w as usize),
        ) || r.contains((w as usize, v as usize))
}

proof fn lemma_sorted_same_contents(
    xs: Seq<(u64, u64)>,
    ys: Seq<(u64, u64)>,
    r1: Seq<(usize, usize)>,
    r2: Seq<(usize, usize)>,
)
    requires
        forall|i: int, j: int|
            0 <= i < j < r1.len() ==> pair_in_order(xs, ys, #[trigger] r1[i], #[trigger] r1[j]),
        forall|i: int, j: int|
            0 <= i < j < r2.len() ==> pair_in_order(xs, ys, #[trigger] r2[i], #[trigger] r2[j]),
        forall|p: (usize, usize)|
            #![trigger r1.contains(p)]
            #![trigger r2.contains(p)]
            r1.contains(p) <==> r2.contains(p),
    ensures
        r1 == r2,
    decreases r1.len(),
{
    if r1.len() == 0 {
        if r2.len() > 0 {
            assert(r2.contains(r2[0]));
            assert(r1.contains(r2[0]));
        }
        assert(r1 =~= r2);
    } else {
        assert(r1.contains(r1[0]));
        assert(r2.len() > 0);
        assert(r2.contains(r2[0]));
        assert(r2.contains(r1[0]));
        assert(r1.contains(r2[0]));
        if r1[0] != r2[0] {
            let k1 = choose|k: int| 0 <= k < r2.len() && r2[k] == r1[0];
            let k2 = choose|k: int| 0 <= k < r1.len() && r1[k] == r2[0];
            assert(pair_in_order(xs, ys, r2[0], r2[k1]));
            assert(pair_in_order(xs, ys, r1[0], r1[k2]));
        }
        let t1 = r1.drop_first();
        let t2 = r2.drop_first();
        assert forall|p: (usize, usize)| #[trigger] t1.contains(p) <==> #[trigger] t2.contains(p) by {
            if t1.contains(p) {
                let k = choose|k: int| 0 <= k < t1.len() && t1[k] == p;
                assert(r1[k + 1] == p);
                assert(pair_in_order(xs, ys, r1[0], r1[k + 1]));
                assert(r1.contains(p));
                assert(r2.contains(p));
                let m = choose|m: int| 0 <= m < r2.len() && r2[m] == p;
                assert(m != 0);
                assert(t2[m - 1] == p);
            }
            if t2.contains(p) {
                let k = choose|k: int| 0 <= k < t2.len() && t2[k] == p;
                assert(r2[k + 1] == p);
                assert(pair_in_order(xs, ys, r2[0], r2[k + 1]));
                assert(r2.contains(p));
                assert(r1.contains(p));
                let m = choose|m: int| 0 <= m < r1.len() && r1[m] == p;
                assert(m != 0);
                assert(t1[m - 1] == p);
            }
        }
        assert forall|i: int, j: int| 0 <= i < j < t1.len() implies pair_in_order(
            xs,
            ys,
            #[trigger] t1[i],
            #[trigger] t1[j],
        ) by {
            assert(pair_in_order(xs, ys, r1[i + 1], r1[j + 1]));
        }
        assert forall|i: int, j: int| 0 <= i < j < t2.len() implies pair_in_order(
            xs,
            ys,
            #[trigger] t2[i],
            #[trigger] t2[j],
        ) by {
            assert(pair_in_order(xs, ys, r2[i + 1], r2[j + 1]));
        }
        lemma_sorted_same_contents(xs, ys, t1, t2);
        assert(r1 =~= r2) by {
            assert forall|k: int| 0 <= k < r1.len() implies r1[k] == r2[k] by {
                if k > 0 {
                    assert(t1[k - 1] == t2[k - 1]);
                }
            }
        }
    }
}

/// The collision list is determined by the extents alone: two lists that
/// both meet `is_collision_list` are equal, element for element.
pub proof fn lemma_collision_list_unique(
    xs: Seq<(u64, u64)>,
    ys: Seq<(u64, u64)>,
    zs: Seq<(u64, u64)>,
    r1: Seq<(usize, usize)>,
    r2: Seq<(usize, usize)>,
)
    requires
        ys.len() == xs.len(),
        zs.len() == xs.len(),
        is_collision_list(xs, ys, zs, r1),
        is_collision_list(xs, ys, zs, r2),
    ensures
        r1 == r2,
{
    assert forall|p: (usize, usize)| #[trigger] r1.contains(p) implies r2.contains(p) by {
        let k = choose|k: int| 0 <= k < r1.len() && r1[k] == p;
        let (a, c) = r1[k];
        assert(touches(xs[c as int], xs[a as int]) && touches(ys[c as int], ys[a as int]));
        if !r2.contains(p) {
            assert(touches(xs[a as int], xs[c as int]));
            assert(r2.contains((c, a)));
            let m = choose|m: int| 0 <= m < r2.len() && r2[m] == (c, a);
            assert(opens_before(ys[a as int], a as int, ys[c as int], c as int));
        }
    }
    assert forall|p: (usize, usize)| #[trigger] r2.contains(p) implies r1.contains(p) by {
        let k = choose|k: int| 0 <= k < r2.len() && r2[k] == p;
        let (a, c) = r2[k];
        assert(touches(xs[c as int], xs[a as int]) && touches(ys[c as int], ys[a as int]));
        if !r1.contains(p) {
            assert(touches(xs[a as int], xs[c as int]));
            assert(r1.contains((c, a)));
            let m = choose|m: int| 0 <= m < r1.len() && r1[m] == (c, a);
            assert(opens_before(ys[a as int], a as int, ys[c as int], c as int));
        }
    }
    lemma_sorted_same_contents(xs, ys, r1, r2);
}

} // verus!
