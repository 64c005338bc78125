//! Why turfs are reached by the shortest way when a search goes breadth first.
use vstd::prelude::*;
use crate::grid::{adjacent, lemma_neighbours, neighbours, TurfID};
use crate::laws::grid::neighbours_lie_where_set;

verus! {

/// Direction `dir` is set in `adjacency`.
pub open spec fn opens_to(adjacency: u8, dir: u8) -> bool {
    adjacency & (1u8 << dir) == 1u8 << dir
}

/// Turf `v` lies next to turf `u` in one of the directions below `end` that are
/// set in `adjacency`.
pub open spec fn next_to(
    adjacency: u8,
    u: TurfID,
    v: TurfID,
    max_x: int,
    max_y: int,
    end: int,
) -> bool {
    exists|dir: u8|
        dir < end && #[trigger] opens_to(adjacency, dir) && v == adjacent(
            dir as int,
            u,
            max_x,
            max_y,
        )
}

/// What lies next to a turf is what it has for neighbours.
pub proof fn lemma_next_to(adjacency: u8, u: TurfID, max_x: int, max_y: int, end: int)
    requires
        0 <= end <= 7,
    ensures
        forall|k: int|
            #![trigger neighbours(adjacency, u, max_x, max_y, 0, end)[k]]
            0 <= k < neighbours(adjacency, u, max_x, max_y, 0, end).len() ==> next_to(
                adjacency,
                u,
                neighbours(adjacency, u, max_x, max_y, 0, end)[k].1,
                max_x,
                max_y,
                end,
            ),
        forall|v: TurfID| #[trigger]
            next_to(adjacency, u, v, max_x, max_y, end) ==> exists|k: int|
                0 <= k < neighbours(adjacency, u, max_x, max_y, 0, end).len() && (
                #[trigger] neighbours(adjacency, u, max_x, max_y, 0, end)[k]).1 == v,
{
    let all = neighbours(adjacency, u, max_x, max_y, 0, end);
    lemma_neighbours(adjacency, u, max_x, max_y, 0, end);
    assert forall|k: int| #![trigger all[k]] 0 <= k < all.len() implies next_to(
        adjacency,
        u,
        all[k].1,
        max_x,
        max_y,
        end,
    ) by {
        let j = all[k].0;
        assert(all[k] == (j, adjacent(j as int, u, max_x, max_y)));
        assert(all.contains(all[k]));
        neighbours_lie_where_set(adjacency, u, max_x, max_y, 0, end, j);
        assert(opens_to(adjacency, j));
    }
    assert forall|v: TurfID| #[trigger]
        next_to(adjacency, u, v, max_x, max_y, end) implies exists|k: int|
        0 <= k < all.len() && (#[trigger] all[k]).1 == v by {
        let j = choose|dir: u8|
            dir < end && #[trigger] opens_to(adjacency, dir) && v == adjacent(
                dir as int,
                u,
                max_x,
                max_y,
            );
        neighbours_lie_where_set(adjacency, u, max_x, max_y, 0, end, j);
        let k = choose|k: int| 0 <= k < all.len() && all[k] == (j, v);
        assert(all[k].1 == v);
    }
}

/// Turf `v` can be reached in `l` steps of `next` from one of the turfs of
/// `starts`.
pub open spec fn steps_away(
    next: spec_fn(TurfID, TurfID) -> bool,
    starts: Seq<TurfID>,
    v: TurfID,
    l: nat,
) -> bool
    decreases l,
{
    if l == 0 {
        starts.contains(v)
    } else {
        exists|u: TurfID| steps_away(next, starts, u, (l - 1) as nat) && #[trigger] next(u, v)
    }
}

/// Turf `v` can be reached in `l` steps, and in no fewer.
pub open spec fn least_steps(
    next: spec_fn(TurfID, TurfID) -> bool,
    starts: Seq<TurfID>,
    v: TurfID,
    l: nat,
) -> bool {
    &&& steps_away(next, starts, v, l)
    &&& forall|fewer: nat| fewer < l ==> !#[trigger] steps_away(next, starts, v, fewer)
}

/// Of the turfs of `starts`, none is nearer to turf `v` than `s`, which is `l`
/// steps away.
pub open spec fn nearest(
    next: spec_fn(TurfID, TurfID) -> bool,
    starts: Seq<TurfID>,
    s: TurfID,
    v: TurfID,
    l: nat,
) -> bool {
    &&& starts.contains(s)
    &&& steps_away(next, seq![s], v, l)
    &&& least_steps(next, starts, v, l)
}

/// Turf `v` stands at `r`: it is one of the first `n`, or was reached from the
/// turf at `a` or an earlier one.
pub open spec fn reached_by(
    order: Seq<TurfID>,
    from: Seq<int>,
    n: int,
    a: int,
    v: TurfID,
    r: int,
) -> bool {
    0 <= r < order.len() && order[r] == v && (r < n || from[r] <= a)
}

/// The turf at `p` was reached from the one at `from[p]`.
pub open spec fn reached_from(
    next: spec_fn(TurfID, TurfID) -> bool,
    order: Seq<TurfID>,
    from: Seq<int>,
    p: int,
) -> bool {
    0 <= from[p] < p && next(order[from[p]], order[p])
}

/// All that `next` leads to from the turf at `a` has been reached.
pub open spec fn looked_around(
    next: spec_fn(TurfID, TurfID) -> bool,
    order: Seq<TurfID>,
    from: Seq<int>,
    n: int,
    a: int,
) -> bool {
    forall|v: TurfID| #[trigger]
        next(order[a], v) ==> exists|r: int| #[trigger] reached_by(order, from, n, a, v, r)
}

/// A search that goes breadth first along `next`. It began with the first `n`
/// turfs of `order`, reached every other one from the turf at `from`, is done with
/// the turfs before `at`, and is now at the turf at `at`.
pub open spec fn breadth_first(
    next: spec_fn(TurfID, TurfID) -> bool,
    order: Seq<TurfID>,
    from: Seq<int>,
    n: int,
    at: int,
) -> bool {
    &&& from.len() == order.len()
    &&& 0 <= n <= order.len()
    &&& 0 <= at <= order.len()
    &&& order.no_duplicates()
    &&& forall|p: int|
        n <= p < order.len() ==> #[trigger] reached_from(next, order, from, p) && from[p] <= at
    &&& forall|p: int, q: int|
        #![trigger from[p], from[q]]
        n <= p <= q < order.len() ==> from[p] <= from[q]
    &&& forall|a: int| 0 <= a < at ==> #[trigger] looked_around(next, order, from, n, a)
}

/// How many steps the search took to the turf at `p`.
pub open spec fn depth(from: Seq<int>, n: int, p: int) -> nat
    decreases p,
{
    if p < n || !(0 <= from[p] < p) {
        0
    } else {
        1 + depth(from, n, from[p])
    }
}

/// The one of the first `n` turfs from which the way to the turf at `p` leads.
pub open spec fn source(from: Seq<int>, n: int, p: int) -> int
    decreases p,
{
    if p < n || !(0 <= from[p] < p) {
        p
    } else {
        source(from, n, from[p])
    }
}

/// The search reaches a turf from the one that it is at.
pub proof fn lemma_reaches(
    next: spec_fn(TurfID, TurfID) -> bool,
    order: Seq<TurfID>,
    from: Seq<int>,
    n: int,
    at: int,
    v: TurfID,
)
    requires
        breadth_first(next, order, from, n, at),
        at < order.len(),
        !order.contains(v),
        next(order[at], v),
    ensures
        breadth_first(next, order.push(v), from.push(at), n, at),
{
    let longer = order.push(v);
    let came = from.push(at);
    assert forall|p: int, q: int|
        0 <= p < longer.len() && 0 <= q < longer.len() && p != q implies longer[p] != longer[q] by {
        if p < order.len() {
            assert(order.contains(order[p]));
        }
        if q < order.len() {
            assert(order.contains(order[q]));
        }
    }
    assert forall|p: int| n <= p < longer.len() implies #[trigger] reached_from(
        next,
        longer,
        came,
        p,
    ) && came[p] <= at by {
        if p < order.len() {
            assert(reached_from(next, order, from, p));
        }
    }
    assert forall|p: int, q: int|
        #![trigger came[p], came[q]]
        n <= p <= q < longer.len() implies came[p] <= came[q] by {
        if q < order.len() {
            assert(from[p] <= from[q]);
        } else if p < order.len() {
            assert(reached_from(next, order, from, p));
        }
    }
    assert forall|a: int| 0 <= a < at implies #[trigger] looked_around(
        next,
        longer,
        came,
        n,
        a,
    ) by {
        assert(looked_around(next, order, from, n, a));
        assert forall|w: TurfID| #[trigger] next(longer[a], w) implies exists|r: int| #[trigger]
            reached_by(longer, came, n, a, w, r) by {
            assert(next(order[a], w));
            let r = choose|r: int| #[trigger] reached_by(order, from, n, a, w, r);
            assert(reached_by(longer, came, n, a, w, r));
        }
    }
}

/// The search is done with a turf and goes on to the next one.
pub proof fn lemma_goes_on(
    next: spec_fn(TurfID, TurfID) -> bool,
    order: Seq<TurfID>,
    from: Seq<int>,
    n: int,
    at: int,
)
    requires
        breadth_first(next, order, from, n, at),
        at < order.len(),
        forall|v: TurfID| next(order[at], v) ==> #[trigger] order.contains(v),
    ensures
        breadth_first(next, order, from, n, at + 1),
{
    assert(looked_around(next, order, from, n, at)) by {
        assert forall|v: TurfID| #[trigger] next(order[at], v) implies exists|r: int| #[trigger]
            reached_by(order, from, n, at, v, r) by {
            assert(order.contains(v));
            let r = choose|r: int| 0 <= r < order.len() && order[r] == v;
            if r >= n {
                assert(reached_from(next, order, from, r));
            }
            assert(reached_by(order, from, n, at, v, r));
        }
    }
    assert forall|p: int| n <= p < order.len() implies #[trigger] reached_from(
        next,
        order,
        from,
        p,
    ) && from[p] <= at + 1 by {}
}

/// Later turfs are no nearer.
pub proof fn lemma_depth_grows(
    next: spec_fn(TurfID, TurfID) -> bool,
    order: Seq<TurfID>,
    from: Seq<int>,
    n: int,
    at: int,
    p: int,
    q: int,
)
    requires
        breadth_first(next, order, from, n, at),
        0 <= p <= q < order.len(),
    ensures
        depth(from, n, p) <= depth(from, n, q),
    decreases q,
{
    if p >= n {
        assert(reached_from(next, order, from, p));
        assert(reached_from(next, order, from, q));
        assert(from[p] <= from[q]);
        lemma_depth_grows(next, order, from, n, at, from[p], from[q]);
    }
}

proof fn lemma_way(
    next: spec_fn(TurfID, TurfID) -> bool,
    order: Seq<TurfID>,
    from: Seq<int>,
    n: int,
    at: int,
    p: int,
)
    requires
        breadth_first(next, order, from, n, at),
        0 <= p < order.len(),
    ensures
        0 <= source(from, n, p) < n,
        steps_away(next, order.take(n), order[p], depth(from, n, p)),
        steps_away(next, seq![order[source(from, n, p)]], order[p], depth(from, n, p)),
    decreases p,
{
    let starts = order.take(n);
    let start = seq![order[source(from, n, p)]];
    if p < n {
        assert(starts[p] == order[p]);
        assert(start[0] == order[p]);
    } else {
        assert(reached_from(next, order, from, p));
        lemma_way(next, order, from, n, at, from[p]);
        let l = depth(from, n, p);
        assert((l - 1) as nat == depth(from, n, from[p]));
        assert(steps_away(next, starts, order[from[p]], (l - 1) as nat));
        assert(steps_away(next, start, order[from[p]], (l - 1) as nat));
    }
}

/// What lies fewer steps away than the turf at `t` was reached, and in as few.
pub proof fn lemma_nearer(
    next: spec_fn(TurfID, TurfID) -> bool,
    order: Seq<TurfID>,
    from: Seq<int>,
    n: int,
    at: int,
    t: int,
    v: TurfID,
    l: nat,
) -> (r: int)
    requires
        breadth_first(next, order, from, n, at),
        0 <= t < order.len(),
        l < depth(from, n, t),
        steps_away(next, order.take(n), v, l),
    ensures
        0 <= r < order.len(),
        order[r] == v,
        depth(from, n, r) <= l,
    decreases l,
{
    let starts = order.take(n);
    if l == 0 {
        let r = choose|r: int| 0 <= r < starts.len() && starts[r] == v;
        assert(order[r] == v);
        r
    } else {
        let u = choose|u: TurfID|
            steps_away(next, starts, u, (l - 1) as nat) && #[trigger] next(u, v);
        let a = lemma_nearer(next, order, from, n, at, t, u, (l - 1) as nat);
        assert(reached_from(next, order, from, t));
        if from[t] <= a {
            lemma_depth_grows(next, order, from, n, at, from[t], a);
        }
        assert(looked_around(next, order, from, n, a));
        let r = choose|r: int| #[trigger] reached_by(order, from, n, a, v, r);
        if r >= n {
            assert(reached_from(next, order, from, r));
            lemma_depth_grows(next, order, from, n, at, from[r], a);
        }
        r
    }
}

/// A search that goes breadth first takes the shortest way to every turf that it
/// reaches, from the nearest of the turfs that it began with.
pub proof fn breadth_first_is_shortest(
    next: spec_fn(TurfID, TurfID) -> bool,
    order: Seq<TurfID>,
    from: Seq<int>,
    n: int,
    at: int,
    t: int,
)
    requires
        breadth_first(next, order, from, n, at),
        0 <= t < order.len(),
    ensures
        0 <= source(from, n, t) < n,
        nearest(
            next,
            order.take(n),
            order[source(from, n, t)],
            order[t],
            depth(from, n, t),
        ),
{
    lemma_way(next, order, from, n, at, t);
    assert(order.take(n)[source(from, n, t)] == order[source(from, n, t)]);
    assert forall|l: nat| l < depth(from, n, t) implies !#[trigger] steps_away(
        next,
        order.take(n),
        order[t],
        l,
    ) by {
        if steps_away(next, order.take(n), order[t], l) {
            let r = lemma_nearer(next, order, from, n, at, t, order[t], l);
            assert(r == t);
        }
    }
}

} // verus!
