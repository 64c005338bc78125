//! What becomes of a zone that is open to a planet.
use vstd::prelude::*;
use crate::amount::Amount;
use crate::flood::Probe;
use crate::grid::{adjacent, neighbours, TurfID};
use crate::info::Ledger;
use crate::laws::breadth::{next_to, opens_to, steps_away};
use crate::laws::paths::{
    all_ends, drained_turfs_match_the_planet, path_links, takes_part,
};
use crate::laws::shares::lemma_neighbours_last;
use crate::laws::zone::{balancing_conserves, lemma_opened};
use crate::planet::{ends_marked, path_step, path_steps, paths_found, planet_paths, Paths};
use crate::settle::rewritten;
use crate::tables::{distinct, entry_of, holds, lemma_distinct_len, place, MixWithID};
use crate::zone::{balanced, opened, zone_books};

verus! {

/// The pairs of turf `i` and its neighbours in the directions below `n` that are set in
/// `adjacency`, as far as they belong to `dom`.
pub open spec fn locks_around(
    dom: Set<TurfID>,
    adjacency: u8,
    i: TurfID,
    max_x: int,
    max_y: int,
    n: int,
) -> Seq<(TurfID, TurfID)>
    decreases n,
{
    if n <= 0 {
        Seq::empty()
    } else {
        let before = locks_around(dom, adjacency, i, max_x, max_y, n - 1);
        let loc = adjacent(n - 1, i, max_x, max_y);
        if opens_to(adjacency, (n - 1) as u8) && dom.contains(loc) {
            before.push((i, loc))
        } else {
            before
        }
    }
}

/// The pairs of the turfs of the zone among the first `n` of `order` and their neighbours, but for
/// those turfs that come as late as `limit`.
pub open spec fn locks_near(
    turfs: Seq<MixWithID>,
    dom: Set<TurfID>,
    order: Seq<TurfID>,
    limit: int,
    max_x: int,
    max_y: int,
    n: int,
) -> Seq<(TurfID, TurfID)>
    decreases n,
{
    if n <= 0 {
        Seq::empty()
    } else {
        let before = locks_near(turfs, dom, order, limit, max_x, max_y, n - 1);
        match entry_of(turfs, order[n - 1]) {
            Some(m) => if n < limit {
                before + locks_around(dom, m.adjacency, order[n - 1], max_x, max_y, 6)
            } else {
                before
            },
            None => before,
        }
    }
}

proof fn lemma_one_more<A: Amount>(
    turfs: Seq<MixWithID>,
    limit: int,
    paths: Paths<A>,
    i: TurfID,
    nth: int,
    steps: Seq<(u8, TurfID)>,
    step: (u8, TurfID),
)
    ensures
        path_steps(turfs, limit, paths, i, nth, steps.push(step)) == path_step(
            turfs,
            limit,
            path_steps(turfs, limit, paths, i, nth, steps),
            i,
            nth,
            step,
        ),
    decreases steps.len(),
{
    let longer = steps.push(step);
    if steps.len() == 0 {
        let first = path_step(turfs, limit, paths, i, nth, step);
        assert(longer[0] == step);
        assert(longer.drop_first() =~= Seq::<(u8, TurfID)>::empty());
        assert(path_steps(turfs, limit, first, i, nth, longer.drop_first()) == first);
    } else {
        let first = path_step(turfs, limit, paths, i, nth, steps[0]);
        assert(longer[0] == steps[0]);
        assert(longer.drop_first() =~= steps.drop_first().push(step));
        lemma_one_more(turfs, limit, first, i, nth, steps.drop_first(), step);
    }
}

/// `after` came of `before`: it goes on with the same turfs, has books for the same turfs, and has
/// the same books for those that were not reached.
spec fn goes_on<A: Amount>(before: Paths<A>, after: Paths<A>) -> bool {
    &&& before.order.is_prefix_of(after.order)
    &&& before.order.no_duplicates() ==> after.order.no_duplicates()
    &&& after.info.dom() == before.info.dom()
    &&& forall|k: TurfID| !after.order.contains(k) ==> #[trigger] after.info[k] == before.info[k]
}

proof fn lemma_goes_on_and_on<A: Amount>(a: Paths<A>, b: Paths<A>, c: Paths<A>)
    requires
        goes_on(a, b),
        goes_on(b, c),
    ensures
        goes_on(a, c),
{
    assert forall|k: TurfID| !c.order.contains(k) implies #[trigger] c.info[k] == a.info[k] by {
        if b.order.contains(k) {
            let p = choose|p: int| 0 <= p < b.order.len() && b.order[p] == k;
            assert(c.order[p] == k);
        }
        assert(c.info[k] == b.info[k]);
        assert(b.info[k] == a.info[k]);
    }
    assert forall|p: int| 0 <= p < a.order.len() implies a.order[p] == c.order[p] by {
        assert(a.order[p] == b.order[p]);
    }
}

/// What lies next to the turf in one direction more has been reached, too, if it takes part.
proof fn lemma_one_direction_more<A: Amount>(
    turfs: Seq<MixWithID>,
    limit: int,
    paths: Paths<A>,
    between: Paths<A>,
    i: TurfID,
    nth: int,
    adjacency: u8,
    max_x: int,
    max_y: int,
    n: int,
)
    requires
        0 < n <= 6,
        goes_on(paths, between),
        forall|v: TurfID| #[trigger]
            next_to(adjacency, i, v, max_x, max_y, n - 1) && takes_part(turfs, paths.info, v)
                ==> between.order.contains(v),
        forall|p: int|
            paths.order.len() <= p < between.order.len() ==> next_to(
                adjacency,
                i,
                #[trigger] between.order[p],
                max_x,
                max_y,
                n - 1,
            ) && takes_part(turfs, paths.info, between.order[p]),
    ensures
        ({
            let loc = adjacent(n - 1, i, max_x, max_y);
            let after = if opens_to(adjacency, (n - 1) as u8) {
                path_step(turfs, limit, between, i, nth, ((n - 1) as u8, loc))
            } else {
                between
            };
            &&& forall|v: TurfID| #[trigger]
                next_to(adjacency, i, v, max_x, max_y, n) && takes_part(turfs, paths.info, v)
                    ==> after.order.contains(v)
            &&& forall|p: int|
                paths.order.len() <= p < after.order.len() ==> next_to(
                    adjacency,
                    i,
                    #[trigger] after.order[p],
                    max_x,
                    max_y,
                    n,
                ) && takes_part(turfs, paths.info, after.order[p])
        }),
{
    let loc = adjacent(n - 1, i, max_x, max_y);
    let opens = opens_to(adjacency, (n - 1) as u8);
    let after = if opens {
        path_step(turfs, limit, between, i, nth, ((n - 1) as u8, loc))
    } else {
        between
    };
    assert(between.info.contains_key(loc) == paths.info.contains_key(loc)) by {
        assert(between.info.dom().contains(loc) == paths.info.dom().contains(loc));
    }
    assert(opens && takes_part(turfs, paths.info, loc) ==> after.order.contains(loc)) by {
        if opens && takes_part(turfs, paths.info, loc) && !between.order.contains(loc) {
            assert(after.order[between.order.len() as int] == loc);
        }
    }
    assert forall|v: TurfID| #[trigger]
        next_to(adjacency, i, v, max_x, max_y, n) && takes_part(
            turfs,
            paths.info,
            v,
        ) implies after.order.contains(v) by {
        let d = choose|d: u8|
            d < n && #[trigger] opens_to(adjacency, d) && v == adjacent(d as int, i, max_x, max_y);
        if d < n - 1 {
            assert(next_to(adjacency, i, v, max_x, max_y, n - 1));
            let p = choose|p: int| 0 <= p < between.order.len() && between.order[p] == v;
            assert(after.order[p] == v);
        }
    }
    assert forall|p: int| paths.order.len() <= p < after.order.len() implies next_to(
        adjacency,
        i,
        #[trigger] after.order[p],
        max_x,
        max_y,
        n,
    ) && takes_part(turfs, paths.info, after.order[p]) by {
        if p < between.order.len() {
            assert(after.order[p] == between.order[p]);
            let v = between.order[p];
            assert(next_to(adjacency, i, v, max_x, max_y, n - 1));
            let d = choose|d: u8|
                d < n - 1 && #[trigger] opens_to(adjacency, d) && v == adjacent(
                    d as int,
                    i,
                    max_x,
                    max_y,
                );
            assert(opens_to(adjacency, d));
        } else {
            assert(after.order[p] == loc);
            assert(opens_to(adjacency, (n - 1) as u8));
        }
    }
}

proof fn lemma_locks_around<A: Amount>(
    turfs: Seq<MixWithID>,
    limit: int,
    paths: Paths<A>,
    i: TurfID,
    nth: int,
    adjacency: u8,
    max_x: int,
    max_y: int,
    n: int,
)
    requires
        0 <= n <= 6,
    ensures
        ({
            let after = path_steps(
                turfs,
                limit,
                paths,
                i,
                nth,
                neighbours(adjacency, i, max_x, max_y, 0, n),
            );
            let locks = locks_around(paths.info.dom(), adjacency, i, max_x, max_y, n);
            &&& goes_on(paths, after)
            &&& nth < limit ==> after.firelocks == paths.firelocks + locks
            &&& nth >= limit ==> after.firelocks == paths.firelocks
            &&& forall|v: TurfID| #[trigger]
                next_to(adjacency, i, v, max_x, max_y, n) && takes_part(turfs, paths.info, v)
                    ==> after.order.contains(v)
            &&& forall|p: int|
                paths.order.len() <= p < after.order.len() ==> next_to(
                    adjacency,
                    i,
                    #[trigger] after.order[p],
                    max_x,
                    max_y,
                    n,
                ) && takes_part(turfs, paths.info, after.order[p])
        }),
    decreases n,
{
    if n > 0 {
        lemma_locks_around(turfs, limit, paths, i, nth, adjacency, max_x, max_y, n - 1);
        lemma_neighbours_last(adjacency, i, max_x, max_y, 0, n);
        let steps = neighbours(adjacency, i, max_x, max_y, 0, n - 1);
        let between = path_steps(turfs, limit, paths, i, nth, steps);
        let loc = adjacent(n - 1, i, max_x, max_y);
        let dom = paths.info.dom();
        let locks = locks_around(dom, adjacency, i, max_x, max_y, n - 1);
        if opens_to(adjacency, (n - 1) as u8) {
            let step = ((n - 1) as u8, loc);
            lemma_one_more(turfs, limit, paths, i, nth, steps, step);
            let after = path_step(turfs, limit, between, i, nth, step);
            assert(dom.contains(loc) == between.info.contains_key(loc));
            assert((paths.firelocks + locks).push((i, loc)) =~= paths.firelocks + locks.push(
                (i, loc),
            ));
            assert(after.info.dom() =~= between.info.dom());
            if after.order != between.order {
                assert(after.order == between.order.push(loc));
                assert(after.order[between.order.len() as int] == loc);
                assert(after.order.contains(loc));
                assert(between.order.no_duplicates() ==> after.order.no_duplicates()) by {
                    if between.order.no_duplicates() {
                        assert forall|p: int, q: int|
                            0 <= p < after.order.len() && 0 <= q < after.order.len() && p
                                != q implies after.order[p] != after.order[q] by {
                            if p < between.order.len() {
                                assert(between.order.contains(between.order[p]));
                            }
                            if q < between.order.len() {
                                assert(between.order.contains(between.order[q]));
                            }
                        }
                    }
                }
            }
            assert(goes_on(between, after));
            lemma_goes_on_and_on(paths, between, after);
        }
        lemma_one_direction_more(
            turfs,
            limit,
            paths,
            between,
            i,
            nth,
            adjacency,
            max_x,
            max_y,
            n,
        );
    } else {
        assert(neighbours(adjacency, i, max_x, max_y, 0, 0) =~= Seq::empty());
        assert(paths.firelocks + Seq::<(TurfID, TurfID)>::empty() =~= paths.firelocks);
    }
}

proof fn lemma_same_locks(
    turfs: Seq<MixWithID>,
    dom: Set<TurfID>,
    a: Seq<TurfID>,
    b: Seq<TurfID>,
    limit: int,
    max_x: int,
    max_y: int,
    n: int,
)
    requires
        n <= a.len(),
        a.is_prefix_of(b),
    ensures
        locks_near(turfs, dom, a, limit, max_x, max_y, n) == locks_near(
            turfs,
            dom,
            b,
            limit,
            max_x,
            max_y,
            n,
        ),
    decreases n,
{
    if n > 0 {
        assert(a[n - 1] == b[n - 1]);
        lemma_same_locks(turfs, dom, a, b, limit, max_x, max_y, n - 1);
    }
}

/// From the first `at` turfs all has been reached that gas can flow to and that has books, and
/// every turf but the first `n` was reached so from one before it.
spec fn reaches_on(
    turfs: Seq<MixWithID>,
    max_x: int,
    max_y: int,
    dom: Set<TurfID>,
    order: Seq<TurfID>,
    n: int,
    at: int,
) -> bool {
    let links = path_links(turfs, dom, max_x, max_y);
    &&& forall|p: int, v: TurfID|
        0 <= p < at && #[trigger] links(order[p], v) ==> order.contains(v)
    &&& forall|p: int| n <= p < order.len() ==> #[trigger] led_from(links, order, p)
}

/// The turf at `p` can be reached from one before it.
spec fn led_from(
    links: spec_fn(TurfID, TurfID) -> bool,
    order: Seq<TurfID>,
    p: int,
) -> bool {
    exists|q: int| 0 <= q < p && links(#[trigger] order[q], order[p])
}

proof fn lemma_reaches_on<A: Amount>(
    turfs: Seq<MixWithID>,
    max_x: int,
    max_y: int,
    paths: Paths<A>,
    next: Paths<A>,
    n: int,
    at: int,
)
    requires
        reaches_on(turfs, max_x, max_y, paths.info.dom(), paths.order, n, at),
        0 <= at < paths.order.len(),
        goes_on(paths, next),
        match entry_of(turfs, paths.order[at]) {
            None => next.order == paths.order,
            Some(m) => {
                let i = paths.order[at];
                &&& forall|v: TurfID| #[trigger]
                    next_to(m.adjacency, i, v, max_x, max_y, 6) && takes_part(turfs, paths.info, v)
                        ==> next.order.contains(v)
                &&& forall|p: int|
                    paths.order.len() <= p < next.order.len() ==> next_to(
                        m.adjacency,
                        i,
                        #[trigger] next.order[p],
                        max_x,
                        max_y,
                        6,
                    ) && takes_part(turfs, paths.info, next.order[p])
            },
        },
    ensures
        reaches_on(turfs, max_x, max_y, paths.info.dom(), next.order, n, at + 1),
{
    let dom = paths.info.dom();
    let links = path_links(turfs, dom, max_x, max_y);
    let order = paths.order;
    assert forall|p: int, v: TurfID|
        0 <= p < at + 1 && #[trigger] links(next.order[p], v) implies next.order.contains(v) by {
        assert(next.order[p] == order[p]);
        if p < at {
            assert(links(order[p], v));
            let r = choose|r: int| 0 <= r < order.len() && order[r] == v;
            assert(next.order[r] == v);
        } else {
            assert(takes_part(turfs, paths.info, v));
        }
    }
    assert forall|p: int| n <= p < next.order.len() implies #[trigger] led_from(
        links,
        next.order,
        p,
    ) by {
        if p < order.len() {
            assert(led_from(links, order, p));
            let q = choose|q: int| 0 <= q < p && links(#[trigger] order[q], order[p]);
            assert(links(next.order[q], next.order[p]));
        } else {
            assert(links(next.order[at], next.order[p]));
        }
    }
}

proof fn lemma_locks_near<A: Amount>(
    turfs: Seq<MixWithID>,
    max_x: int,
    max_y: int,
    limit: int,
    paths: Paths<A>,
    n: int,
    at: int,
)
    requires
        0 <= at <= paths.order.len(),
        at <= 0x1_0000_0000,
        paths.order.no_duplicates(),
        paths.firelocks == locks_near(
            turfs,
            paths.info.dom(),
            paths.order,
            limit,
            max_x,
            max_y,
            at,
        ),
        reaches_on(turfs, max_x, max_y, paths.info.dom(), paths.order, n, at),
    ensures
        ({
            let end = paths_found(turfs, max_x, max_y, limit, paths, at);
            &&& goes_on(paths, end)
            &&& reaches_on(
                turfs,
                max_x,
                max_y,
                paths.info.dom(),
                end.order,
                n,
                end.order.len() as int,
            )
            &&& end.firelocks == locks_near(
                turfs,
                paths.info.dom(),
                end.order,
                limit,
                max_x,
                max_y,
                end.order.len() as int,
            )
        }),
    decreases 0x1_0000_0000 - at,
{
    lemma_distinct_len(paths.order);
    if at < paths.order.len() {
        let i = paths.order[at];
        let dom = paths.info.dom();
        let next = match entry_of(turfs, i) {
            None => Paths { info: rewritten(paths.info, i, Ledger::blank()), ..paths },
            Some(m) => path_steps(
                turfs,
                limit,
                paths,
                i,
                at + 1,
                neighbours(m.adjacency, i, max_x, max_y, 0, 6),
            ),
        };
        match entry_of(turfs, i) {
            None => {
                assert(next.info.dom() =~= dom);
                assert(paths.order.contains(i));
                assert(goes_on(paths, next));
            },
            Some(m) => {
                lemma_locks_around(
                    turfs,
                    limit,
                    paths,
                    i,
                    at + 1,
                    m.adjacency,
                    max_x,
                    max_y,
                    6,
                );
            },
        }
        lemma_same_locks(turfs, dom, paths.order, next.order, limit, max_x, max_y, at);
        assert(next.order[at] == i);
        lemma_reaches_on(turfs, max_x, max_y, paths, next, n, at);
        lemma_locks_near(turfs, max_x, max_y, limit, next, n, at + 1);
        let end = paths_found(turfs, max_x, max_y, limit, paths, at);
        lemma_goes_on_and_on(paths, next, end);
    }
}

proof fn lemma_ends<A: Amount>(info: Map<TurfID, Ledger<A>>, planet_turfs: Seq<MixWithID>)
    ensures
        forall|k: TurfID| #[trigger]
            ends_marked(info, planet_turfs).contains_key(k) <==> info.contains_key(k) || holds(
                planet_turfs,
                k,
            ),
        forall|k: TurfID|
            !holds(planet_turfs, k) ==> #[trigger] ends_marked(info, planet_turfs)[k] == info[k],
    decreases planet_turfs.len(),
{
    if planet_turfs.len() > 0 {
        let front = planet_turfs.drop_last();
        let i = planet_turfs.last().0;
        lemma_ends(info, front);
        assert forall|k: TurfID| #[trigger] holds(planet_turfs, k) == (holds(front, k) || k == i) by {
            assert(planet_turfs[planet_turfs.len() - 1].0 == i);
            if holds(front, k) {
                assert(planet_turfs[place(front, k)].0 == k);
            }
            if holds(planet_turfs, k) && k != i {
                assert(front[place(planet_turfs, k)].0 == k);
            }
        }
        let before = ends_marked(info, front);
        let after = ends_marked(info, planet_turfs);
        assert(after == before.insert(i, after[i]));
        assert forall|k: TurfID| #[trigger] after.contains_key(k) <==> info.contains_key(k)
            || holds(planet_turfs, k) by {
            assert(before.contains_key(k) <==> info.contains_key(k) || holds(front, k));
            assert(holds(planet_turfs, k) == (holds(front, k) || k == i));
        }
        assert forall|k: TurfID| !holds(planet_turfs, k) implies #[trigger] after[k] == info[k] by {
            assert(holds(planet_turfs, k) == (holds(front, k) || k == i));
            assert(before[k] == info[k]);
        }
    }
}

proof fn lemma_planet_paths<A: Amount>(
    planet_turfs: Seq<MixWithID>,
    turfs: Seq<MixWithID>,
    max_x: int,
    max_y: int,
    limit: int,
    info: Map<TurfID, Ledger<A>>,
)
    requires
        distinct(planet_turfs),
    ensures
        ({
            let paths = planet_paths(planet_turfs, turfs, max_x, max_y, limit, info);
            &&& forall|k: TurfID| #[trigger]
                paths.info.contains_key(k) <==> info.contains_key(k) || holds(planet_turfs, k)
            &&& forall|k: TurfID|
                !paths.order.contains(k) ==> #[trigger] paths.info[k] == info[k]
            &&& paths.firelocks == locks_near(
                turfs,
                paths.info.dom(),
                paths.order,
                limit,
                max_x,
                max_y,
                paths.order.len() as int,
            )
            &&& paths.order.no_duplicates()
            &&& planet_turfs.map_values(|turf: MixWithID| turf.0).is_prefix_of(paths.order)
            &&& reaches_on(
                turfs,
                max_x,
                max_y,
                paths.info.dom(),
                paths.order,
                planet_turfs.len() as int,
                paths.order.len() as int,
            )
        }),
{
    let order = planet_turfs.map_values(|turf: MixWithID| turf.0);
    let start = Paths { info: ends_marked(info, planet_turfs), order, firelocks: Seq::empty() };
    lemma_ends(info, planet_turfs);
    assert forall|p: int, q: int|
        0 <= p < order.len() && 0 <= q < order.len() && p != q implies order[p] != order[q] by {
        if p < q {
            assert(planet_turfs[p].0 != planet_turfs[q].0);
        } else {
            assert(planet_turfs[q].0 != planet_turfs[p].0);
        }
    }
    lemma_locks_near(turfs, max_x, max_y, limit, start, order.len() as int, 0);
    let paths = planet_paths(planet_turfs, turfs, max_x, max_y, limit, info);
    assert(goes_on(start, paths));
    assert forall|k: TurfID| #[trigger]
        paths.info.contains_key(k) == start.info.contains_key(k) by {
        assert(paths.info.dom().contains(k) == start.info.dom().contains(k));
    }
    assert forall|k: TurfID| !paths.order.contains(k) implies #[trigger] paths.info[k]
        == info[k] by {
        if holds(planet_turfs, k) {
            let p = place(planet_turfs, k);
            assert(order[p] == k);
            assert(paths.order[p] == k);
        }
        assert(start.info[k] == info[k]);
    }
}

/// Gas can flow from the zone's turf `u` to `v`, which belongs to the zone, too, and takes part in
/// the simulation.
pub open spec fn flows_to(turfs: Seq<MixWithID>, max_x: int, max_y: int) -> spec_fn(
    TurfID,
    TurfID,
) -> bool {
    |u: TurfID, v: TurfID|
        {
            &&& entry_of(turfs, u) matches Some(m) && next_to(m.adjacency, u, v, max_x, max_y, 6)
            &&& entry_of(turfs, v) matches Some(mixture) && mixture.simulated
        }
}

proof fn lemma_all_found(
    turfs: Seq<MixWithID>,
    max_x: int,
    max_y: int,
    dom: Set<TurfID>,
    starts: Seq<TurfID>,
    order: Seq<TurfID>,
    v: TurfID,
    l: nat,
)
    requires
        forall|k: TurfID| #[trigger] holds(turfs, k) ==> dom.contains(k),
        starts.is_prefix_of(order),
        reaches_on(
            turfs,
            max_x,
            max_y,
            dom,
            order,
            starts.len() as int,
            order.len() as int,
        ),
        steps_away(flows_to(turfs, max_x, max_y), starts, v, l),
    ensures
        order.contains(v),
    decreases l,
{
    let next = flows_to(turfs, max_x, max_y);
    if l == 0 {
        let p = choose|p: int| 0 <= p < starts.len() && starts[p] == v;
        assert(order[p] == v);
    } else {
        let u = choose|u: TurfID|
            steps_away(next, starts, u, (l - 1) as nat) && #[trigger] next(u, v);
        lemma_all_found(turfs, max_x, max_y, dom, starts, order, u, (l - 1) as nat);
        let p = choose|p: int| 0 <= p < order.len() && order[p] == u;
        assert(holds(turfs, v));
        assert(path_links(turfs, dom, max_x, max_y)(order[p], v));
    }
}

proof fn lemma_some_way(
    turfs: Seq<MixWithID>,
    max_x: int,
    max_y: int,
    dom: Set<TurfID>,
    starts: Seq<TurfID>,
    order: Seq<TurfID>,
    p: int,
) -> (l: nat)
    requires
        starts.is_prefix_of(order),
        reaches_on(
            turfs,
            max_x,
            max_y,
            dom,
            order,
            starts.len() as int,
            order.len() as int,
        ),
        0 <= p < order.len(),
    ensures
        steps_away(flows_to(turfs, max_x, max_y), starts, order[p], l),
    decreases p,
{
    let next = flows_to(turfs, max_x, max_y);
    let links = path_links(turfs, dom, max_x, max_y);
    if p < starts.len() {
        assert(starts[p] == order[p]);
        0
    } else {
        assert(led_from(links, order, p));
        let q = choose|q: int| 0 <= q < p && links(#[trigger] order[q], order[p]);
        let l = lemma_some_way(turfs, max_x, max_y, dom, starts, order, q);
        assert(next(order[q], order[p]));
        assert(((l + 1) - 1) as nat == l);
        l + 1
    }
}

/// Paths to the planet are found for exactly those turfs from which there are any: the turfs of the
/// planet, and all turfs of the zone that take part in the simulation and from which gas can
/// flow, from turf to turf, to one of them. All turfs of the zone have books.
pub proof fn paths_are_found_for_all<A: Amount>(
    planet_turfs: Seq<MixWithID>,
    turfs: Seq<MixWithID>,
    max_x: int,
    max_y: int,
    limit: int,
    info: Map<TurfID, Ledger<A>>,
)
    requires
        distinct(planet_turfs),
        forall|k: TurfID| #[trigger] holds(turfs, k) ==> info.contains_key(k),
    ensures
        ({
            let order = planet_paths(planet_turfs, turfs, max_x, max_y, limit, info).order;
            let ids = planet_turfs.map_values(|turf: MixWithID| turf.0);
            let next = flows_to(turfs, max_x, max_y);
            &&& order.no_duplicates()
            &&& ids.is_prefix_of(order)
            &&& forall|k: TurfID| #[trigger]
                order.contains(k) <==> exists|l: nat| #[trigger] steps_away(next, ids, k, l)
        }),
{
    lemma_planet_paths(planet_turfs, turfs, max_x, max_y, limit, info);
    let paths = planet_paths(planet_turfs, turfs, max_x, max_y, limit, info);
    let order = paths.order;
    let dom = paths.info.dom();
    let ids = planet_turfs.map_values(|turf: MixWithID| turf.0);
    let next = flows_to(turfs, max_x, max_y);
    assert forall|k: TurfID| #[trigger] holds(turfs, k) implies dom.contains(k) by {
        assert(paths.info.contains_key(k));
    }
    assert forall|k: TurfID, l: nat| #[trigger] steps_away(next, ids, k, l) implies order.contains(
        k,
    ) by {
        lemma_all_found(turfs, max_x, max_y, dom, ids, order, k, l);
    }
    assert forall|k: TurfID| #[trigger] order.contains(k) implies exists|l: nat| #[trigger]
        steps_away(next, ids, k, l) by {
        let p = choose|p: int| 0 <= p < order.len() && order[p] == k;
        let l = lemma_some_way(turfs, max_x, max_y, dom, ids, order, p);
        assert(steps_away(next, ids, k, l));
    }
}

/// A zone that is open to a planet whose atmosphere is known comes to what the planet holds: every
/// turf of the zone from which gas can flow, from turf to turf, to a turf of the planet ends up as
/// far above the average as the atmosphere is. The books of the turfs of the zone from which there
/// is no way stay as they were once the turfs were matched with each other. Firelocks are
/// considered between the turfs of the zone that come before the `limit`, by their distance from
/// the planet, and their neighbours in all directions, and nowhere else.
pub proof fn open_zones_come_to_the_planet<A: Amount>(
    turfs: Seq<MixWithID>,
    planet_turfs: Seq<MixWithID>,
    average: A,
    world: Map<TurfID, Probe<A>>,
    planets: Map<u32, A>,
    max_x: int,
    max_y: int,
    limit: int,
    planet: u32,
)
    requires
        distinct(planet_turfs),
        all_ends(planet_turfs, turfs),
        planet_turfs.len() > 0,
        planet_turfs[0].1.planetary_atmos == Some(planet),
        planets.contains_key(planet),
    ensures
        ({
            let level = balanced(turfs, max_x, max_y, opened(world, turfs, average));
            let (books, firelocks) = zone_books(
                turfs,
                planet_turfs,
                average,
                world,
                planets,
                max_x,
                max_y,
                limit,
            );
            let order = planet_paths(planet_turfs, turfs, max_x, max_y, limit, level).order;
            let ids = planet_turfs.map_values(|turf: MixWithID| turf.0);
            let next = flows_to(turfs, max_x, max_y);
            &&& forall|k: TurfID, l: nat| #[trigger]
                steps_away(next, ids, k, l) && holds(turfs, k) ==> books[k].mole_delta
                    == planets[planet].spec_minus(average)
            &&& forall|k: TurfID| #[trigger]
                holds(turfs, k) && (forall|l: nat| !#[trigger] steps_away(next, ids, k, l))
                    ==> books[k] == level[k]
            &&& forall|k: TurfID| #[trigger]
                order.contains(k) <==> exists|l: nat| #[trigger] steps_away(next, ids, k, l)
            &&& firelocks == locks_near(
                turfs,
                Set::new(|k: TurfID| holds(turfs, k) || holds(planet_turfs, k)),
                order,
                limit,
                max_x,
                max_y,
                order.len() as int,
            )
        }),
{
    let info = opened(world, turfs, average);
    let level = balanced(turfs, max_x, max_y, info);
    lemma_opened(world, turfs, average, max_x, max_y);
    balancing_conserves(turfs, max_x, max_y, info);
    assert forall|k: TurfID| #[trigger] level.contains_key(k) == holds(turfs, k) by {
        assert(level.dom().contains(k) == info.dom().contains(k));
    }
    let paths = planet_paths(planet_turfs, turfs, max_x, max_y, limit, level);
    let order = paths.order;
    let target = planets[planet].spec_minus(average);
    let ids = planet_turfs.map_values(|turf: MixWithID| turf.0);
    let next = flows_to(turfs, max_x, max_y);
    let books = zone_books(
        turfs,
        planet_turfs,
        average,
        world,
        planets,
        max_x,
        max_y,
        limit,
    ).0;
    lemma_planet_paths(planet_turfs, turfs, max_x, max_y, limit, level);
    paths_are_found_for_all(planet_turfs, turfs, max_x, max_y, limit, level);
    drained_turfs_match_the_planet(planet_turfs, turfs, max_x, max_y, limit, level, target);
    assert(paths.info.dom() =~= Set::new(
        |k: TurfID| holds(turfs, k) || holds(planet_turfs, k),
    ));
    assert forall|k: TurfID, l: nat| #[trigger]
        steps_away(next, ids, k, l) && holds(turfs, k) implies books[k].mole_delta == target by {
        assert(order.contains(k));
        let p = choose|p: int| 0 <= p < order.len() && order[p] == k;
        assert(holds(turfs, order[p]));
    }
    assert forall|k: TurfID| #[trigger]
        holds(turfs, k) && (forall|l: nat| !#[trigger] steps_away(next, ids, k, l)) implies books[k]
        == level[k] by {
        assert(!order.contains(k));
        assert(books[k] == paths.info[k]);
        assert(paths.info[k] == level[k]);
    }
}

/// A zone that is open to no planet, or only to one whose atmosphere is not known, keeps to itself:
/// its books are those of its turfs matched with each other, and no firelocks are considered.
pub proof fn other_zones_keep_to_themselves<A: Amount>(
    turfs: Seq<MixWithID>,
    planet_turfs: Seq<MixWithID>,
    average: A,
    world: Map<TurfID, Probe<A>>,
    planets: Map<u32, A>,
    max_x: int,
    max_y: int,
    limit: int,
)
    requires
        planet_turfs.len() == 0 || planet_turfs[0].1.planetary_atmos is None
            || !planets.contains_key(planet_turfs[0].1.planetary_atmos->0),
    ensures
        zone_books(turfs, planet_turfs, average, world, planets, max_x, max_y, limit).0
            == balanced(turfs, max_x, max_y, opened(world, turfs, average)),
        zone_books(turfs, planet_turfs, average, world, planets, max_x, max_y, limit).1.len() == 0,
{
}

/// The books of a zone are opened with what each of its turfs holds above the average, nothing is
/// booked to move yet, and no turf has had a turn.
pub proof fn books_open_with_the_readings<A: Amount>(
    turfs: Seq<MixWithID>,
    average: A,
    world: Map<TurfID, Probe<A>>,
    k: TurfID,
)
    ensures
        ({
            let info = opened(world, turfs, average);
            &&& info.contains_key(k) <==> holds(turfs, k)
            &&& holds(turfs, k) && world[k] is Turf ==> {
                &&& info[k].mole_delta == world[k]->Turf_0.moles.spec_minus(average)
                &&& info[k].transfers == Seq::new(7, |d: int| A::spec_zero())
                &&& !info[k].fast_done
            }
        }),
{
    assert(Ledger::<A>::blank().transfers =~= Seq::new(7, |d: int| A::spec_zero()));
}

} // verus!
