//! What the turn of a turf in the quick round does.
use vstd::prelude::*;
use crate::amount::Amount;
use crate::fast::{fast_processed, lemma_open_steps, open_steps, open_to, shared_out};
use crate::grid::{adjacent, neighbours, opposite, TurfID};
use crate::info::Ledger;
use crate::tables::{books_wf, entry_of, MixWithID, TurfMixture};

verus! {

/// In direction `j` of turf `i` lies a turf that can take a share of its surplus: the
/// direction is set in the adjacency `adj`, and the turf there is another one, is
/// in the zone, takes part in the simulation, has books, and has not had its turn.
pub open spec fn eligible<A: Amount>(
    turfs: Seq<MixWithID>,
    info: Map<TurfID, Ledger<A>>,
    i: TurfID,
    adj: u8,
    j: int,
    max_x: int,
    max_y: int,
) -> bool {
    let loc = adjacent(j, i, max_x, max_y);
    &&& 0 <= j < 6
    &&& adj & (1u8 << (j as u8)) == 1u8 << (j as u8)
    &&& loc != i
    &&& entry_of(turfs, loc) matches Some(mixture) && mixture.simulated
    &&& info.contains_key(loc) && !info[loc].fast_done
}

/// In how many of the directions below `n` a share can be taken.
pub open spec fn eligible_count<A: Amount>(
    turfs: Seq<MixWithID>,
    info: Map<TurfID, Ledger<A>>,
    i: TurfID,
    adj: u8,
    n: int,
    max_x: int,
    max_y: int,
) -> nat
    decreases n,
{
    if n <= 0 {
        0
    } else {
        eligible_count(turfs, info, i, adj, n - 1, max_x, max_y) + if eligible(
            turfs,
            info,
            i,
            adj,
            n - 1,
            max_x,
            max_y,
        ) {
            1nat
        } else {
            0
        }
    }
}

/// `x` is taken from `a` `n` times.
pub open spec fn less_times<A: Amount>(a: A, x: A, n: nat) -> A
    decreases n,
{
    if n == 0 {
        a
    } else {
        less_times(a, x, (n - 1) as nat).spec_minus(x)
    }
}

proof fn lemma_less_first<A: Amount>(a: A, x: A, n: nat)
    ensures
        less_times(a.spec_minus(x), x, n) == less_times(a, x, n + 1),
    decreases n,
{
    if n > 0 {
        lemma_less_first(a, x, (n - 1) as nat);
    } else {
        assert(less_times(a, x, 0) == a);
        assert(less_times(a, x, 1) == less_times(a, x, 0).spec_minus(x));
    }
}

/// One of `steps` goes in direction `d`.
spec fn goes(steps: Seq<(u8, TurfID)>, d: int) -> bool {
    exists|k: int| 0 <= k < steps.len() && (#[trigger] steps[k]).0 == d
}

/// One of `steps` goes to turf `loc`, in the direction `d`.
spec fn goes_to(steps: Seq<(u8, TurfID)>, d: int, loc: TurfID) -> bool {
    exists|k: int| 0 <= k < steps.len() && (#[trigger] steps[k]).0 == d && steps[k].1 == loc
}

/// Exactly one of `steps` goes to turf `loc`.
spec fn once_to(steps: Seq<(u8, TurfID)>, loc: TurfID) -> bool {
    &&& exists|k: int| 0 <= k < steps.len() && (#[trigger] steps[k]).1 == loc
    &&& forall|k: int, l: int|
        0 <= k < steps.len() && 0 <= l < steps.len() && (#[trigger] steps[k]).1 == loc && (
        #[trigger] steps[l]).1 == loc ==> k == l
}

spec fn never_to(steps: Seq<(u8, TurfID)>, loc: TurfID) -> bool {
    forall|k: int| 0 <= k < steps.len() ==> (#[trigger] steps[k]).1 != loc
}

#[verifier::rlimit(40)]
proof fn lemma_shared_out<A: Amount>(
    info: Map<TurfID, Ledger<A>>,
    i: TurfID,
    own: Ledger<A>,
    steps: Seq<(u8, TurfID)>,
    x: A,
)
    requires
        books_wf(info),
        info.contains_key(i),
        info[i] == own,
        forall|k: int|
            #![trigger steps[k]]
            0 <= k < steps.len() ==> steps[k].0 < 6 && steps[k].1 != i && info.contains_key(
                steps[k].1,
            ),
        forall|k: int, l: int|
            0 <= k < l < steps.len() ==> (#[trigger] steps[k]).0 < (#[trigger] steps[l]).0,
    ensures
        ({
            let after = shared_out(info, i, own, steps, x);
            &&& after.dom() == info.dom()
            &&& forall|d: int|
                0 <= d < 7 ==> #[trigger] after[i].transfers[d] == if goes(steps, d) {
                    own.transfers[d].spec_plus(x)
                } else {
                    own.transfers[d]
                }
            &&& after[i].transfers.len() == 7
            &&& after[i].mole_delta == less_times(own.mole_delta, x, steps.len())
            &&& after[i].fast_done == own.fast_done
            &&& after[i].curr_transfer_amount == own.curr_transfer_amount
            &&& after[i].curr_transfer_dir == own.curr_transfer_dir
            &&& forall|loc: TurfID, d: int|
                #![trigger after[loc].transfers[d]]
                loc != i && info.contains_key(loc) && 0 <= d < 7 ==> after[loc].transfers[d]
                    == if d < 6 && goes_to(steps, opposite(d), loc) {
                    info[loc].transfers[d].spec_minus(x)
                } else {
                    info[loc].transfers[d]
                }
            &&& forall|loc: TurfID| #[trigger]
                info.contains_key(loc) && loc != i ==> {
                    &&& after[loc].transfers.len() == 7
                    &&& after[loc].fast_done == info[loc].fast_done
                    &&& after[loc].curr_transfer_amount == info[loc].curr_transfer_amount
                    &&& after[loc].curr_transfer_dir == info[loc].curr_transfer_dir
                    &&& once_to(steps, loc) ==> after[loc].mole_delta
                        == info[loc].mole_delta.spec_plus(x)
                    &&& never_to(steps, loc) ==> after[loc] == info[loc]
                }
        }),
    decreases steps.len(),
{
    if steps.len() > 0 {
        let (j, to) = steps[0];
        let rest = steps.drop_first();
        let sent = Ledger {
            mole_delta: own.mole_delta.spec_minus(x),
            ..own.sends(j as int, x)
        };
        let got = info[to].receives(opposite(j as int), x);
        let there = Ledger { mole_delta: got.mole_delta.spec_plus(x), ..got };
        let next = info.insert(to, there).insert(i, sent);
        let after = shared_out(info, i, own, steps, x);
        assert(steps[0] == (j, to));
        assert(own.wf() && info[to].wf());
        assert(next.dom() =~= info.dom());
        assert forall|k: TurfID| #[trigger] next.contains_key(k) implies next[k].wf() by {
            assert(info[k].wf());
        }
        assert forall|k: int| #![trigger rest[k]] 0 <= k < rest.len() implies rest[k].0 < 6
            && rest[k].1 != i && next.contains_key(rest[k].1) && rest[k].0 > j by {
            assert(rest[k] == steps[k + 1]);
        }
        assert forall|k: int, l: int| 0 <= k < l < rest.len() implies (#[trigger] rest[k]).0 < (
        #[trigger] rest[l]).0 by {
            assert(rest[k] == steps[k + 1] && rest[l] == steps[l + 1]);
        }
        lemma_shared_out(next, i, sent, rest, x);
        assert(after == shared_out(next, i, sent, rest, x));
        lemma_less_first(own.mole_delta, x, rest.len());
        assert forall|d: int| #[trigger] goes(steps, d) == (d == j || goes(rest, d)) by {
            if goes(rest, d) {
                let k = choose|k: int| 0 <= k < rest.len() && (#[trigger] rest[k]).0 == d;
                assert(steps[k + 1].0 == d);
            }
            if goes(steps, d) && d != j {
                let k = choose|k: int| 0 <= k < steps.len() && (#[trigger] steps[k]).0 == d;
                assert(rest[k - 1].0 == d);
            }
        }
        assert(!goes(rest, j as int));
        assert forall|d: int, loc: TurfID| #[trigger] goes_to(steps, d, loc) == (d == j && loc
            == to || goes_to(rest, d, loc)) by {
            if goes_to(rest, d, loc) {
                let k = choose|k: int|
                    0 <= k < rest.len() && (#[trigger] rest[k]).0 == d && rest[k].1 == loc;
                assert(steps[k + 1].0 == d && steps[k + 1].1 == loc);
            }
            if goes_to(steps, d, loc) && !(d == j && loc == to) {
                let k = choose|k: int|
                    0 <= k < steps.len() && (#[trigger] steps[k]).0 == d && steps[k].1 == loc;
                assert(rest[k - 1].0 == d && rest[k - 1].1 == loc);
            }
        }
        assert forall|loc: TurfID| !goes_to(rest, j as int, loc) by {}
        assert forall|loc: TurfID, d: int|
            #![trigger after[loc].transfers[d]]
            loc != i && info.contains_key(loc) && 0 <= d < 7 implies after[loc].transfers[d]
            == if d < 6 && goes_to(steps, opposite(d), loc) {
            info[loc].transfers[d].spec_minus(x)
        } else {
            info[loc].transfers[d]
        } by {
            assert(next.contains_key(loc));
            assert(d < 6 ==> 0 <= opposite(d) < 6 && opposite(opposite(d)) == d);
            assert(0 <= opposite(j as int) < 6 && opposite(opposite(j as int)) == j);
            assert(!goes_to(rest, j as int, loc));
        }
        assert forall|loc: TurfID| #[trigger] info.contains_key(loc) && loc != i implies {
            &&& once_to(steps, loc) ==> after[loc].mole_delta == info[loc].mole_delta.spec_plus(x)
            &&& never_to(steps, loc) ==> after[loc] == info[loc]
        } by {
            assert(next.contains_key(loc));
            if never_to(steps, loc) {
                assert(steps[0].1 != loc);
                assert(never_to(rest, loc)) by {
                    assert forall|k: int| 0 <= k < rest.len() implies (#[trigger] rest[k]).1
                        != loc by {
                        assert(steps[k + 1] == rest[k]);
                    }
                }
            }
            if once_to(steps, loc) {
                if loc == to {
                    assert(never_to(rest, loc)) by {
                        assert forall|k: int| 0 <= k < rest.len() implies (#[trigger] rest[k]).1
                            != loc by {
                            assert(steps[k + 1] == rest[k]);
                            assert(steps[0].1 == loc);
                        }
                    }
                } else {
                    assert(once_to(rest, loc)) by {
                        let k = choose|k: int|
                            0 <= k < steps.len() && (#[trigger] steps[k]).1 == loc;
                        assert(rest[k - 1].1 == loc);
                        assert forall|k: int, l: int|
                            0 <= k < rest.len() && 0 <= l < rest.len() && (#[trigger] rest[k]).1
                                == loc && (#[trigger] rest[l]).1 == loc implies k == l by {
                            assert(steps[k + 1] == rest[k] && steps[l + 1] == rest[l]);
                        }
                    }
                }
            }
        }
    } else {
        assert(own.wf());
        assert forall|loc: TurfID| #[trigger] info.contains_key(loc) implies info[loc].wf() by {}
    }
}

/// The turfs open to the surplus, found step by step, are the eligible ones.
proof fn lemma_open_are_eligible<A: Amount>(
    turfs: Seq<MixWithID>,
    info: Map<TurfID, Ledger<A>>,
    marked: Map<TurfID, Ledger<A>>,
    i: TurfID,
    adj: u8,
    n: int,
    max_x: int,
    max_y: int,
)
    requires
        0 <= n <= 6,
        info.contains_key(i),
        marked == info.insert(i, Ledger { fast_done: true, ..info[i] }),
    ensures
        ({
            let steps = open_steps(turfs, marked, neighbours(adj, i, max_x, max_y, 0, n));
            &&& steps.len() == eligible_count(turfs, info, i, adj, n, max_x, max_y)
            &&& forall|d: int|
                0 <= d < n ==> (#[trigger] goes(steps, d) <==> eligible(
                    turfs,
                    info,
                    i,
                    adj,
                    d,
                    max_x,
                    max_y,
                ))
            &&& forall|k: int|
                #![trigger steps[k]]
                0 <= k < steps.len() ==> steps[k].0 < n && steps[k].1 == adjacent(
                    steps[k].0 as int,
                    i,
                    max_x,
                    max_y,
                )
            &&& forall|k: int, l: int|
                0 <= k < l < steps.len() ==> (#[trigger] steps[k]).0 < (#[trigger] steps[l]).0
        }),
    decreases n,
{
    if n > 0 {
        let d = n - 1;
        lemma_open_are_eligible(turfs, info, marked, i, adj, d, max_x, max_y);
        lemma_neighbours_last(adj, i, max_x, max_y, 0, n);
        let before = neighbours(adj, i, max_x, max_y, 0, d);
        let all = neighbours(adj, i, max_x, max_y, 0, n);
        let front = open_steps(turfs, marked, before);
        let steps = open_steps(turfs, marked, all);
        let loc = adjacent(d, i, max_x, max_y);
        let yes = eligible(turfs, info, i, adj, d, max_x, max_y);
        if adj & (1u8 << (d as u8)) == 1u8 << (d as u8) {
            assert(all.drop_last() =~= before);
            assert(all.last() == (d as u8, loc));
            assert(open_to(turfs, marked, loc) == yes);
        }
        assert(steps == if yes {
            front.push((d as u8, loc))
        } else {
            front
        });
        assert forall|e: int| 0 <= e < n implies (#[trigger] goes(steps, e) <==> eligible(
            turfs,
            info,
            i,
            adj,
            e,
            max_x,
            max_y,
        )) by {
            if e < d {
                assert(goes(front, e) <==> eligible(turfs, info, i, adj, e, max_x, max_y));
                if goes(front, e) {
                    let k = choose|k: int| 0 <= k < front.len() && (#[trigger] front[k]).0 == e;
                    assert(steps[k].0 == e);
                }
                if goes(steps, e) {
                    let k = choose|k: int| 0 <= k < steps.len() && (#[trigger] steps[k]).0 == e;
                    assert(front[k].0 == e);
                }
            } else {
                if yes {
                    assert(steps[front.len() as int].0 == e);
                }
            }
        }
    }
}

/// Neighbours in one direction more.
pub proof fn lemma_neighbours_last(adj: u8, i: TurfID, max_x: int, max_y: int, from: int, end: int)
    requires
        0 <= from < end <= 7,
    ensures
        neighbours(adj, i, max_x, max_y, from, end) == if adj & (1u8 << ((end - 1) as u8)) == 1u8
            << ((end - 1) as u8) {
            neighbours(adj, i, max_x, max_y, from, end - 1).push(
                ((end - 1) as u8, adjacent(end - 1, i, max_x, max_y)),
            )
        } else {
            neighbours(adj, i, max_x, max_y, from, end - 1)
        },
    decreases end - from,
{
    if from + 1 < end {
        lemma_neighbours_last(adj, i, max_x, max_y, from + 1, end);
        let last = ((end - 1) as u8, adjacent(end - 1, i, max_x, max_y));
        let first = seq![(from as u8, adjacent(from, i, max_x, max_y))];
        let mid = neighbours(adj, i, max_x, max_y, from + 1, end - 1);
        assert(first + mid.push(last) =~= (first + mid).push(last));
    } else {
        assert(neighbours(adj, i, max_x, max_y, end, end) =~= Seq::empty());
        assert(neighbours(adj, i, max_x, max_y, from, from) =~= Seq::empty());
        let last = ((end - 1) as u8, adjacent(end - 1, i, max_x, max_y));
        assert(seq![last] + Seq::<(u8, TurfID)>::empty() =~= Seq::<(u8, TurfID)>::empty().push(
            last,
        ));
    }
}

/// A turf that has too much shares all of it, in equal parts, with its eligible
/// neighbours, however many there are: in each direction in which one lies,
/// one part more is booked to leave, and to come in on the other side, and the
/// neighbour has so much more. Nothing else changes, but that the turf has had its
/// turn. A turf that has not too much, or no eligible neighbour, just has had its
/// turn.
pub proof fn surplus_is_shared_equally<A: Amount>(
    i: TurfID,
    m: TurfMixture,
    turfs: Seq<MixWithID>,
    max_x: int,
    max_y: int,
    info: Map<TurfID, Ledger<A>>,
)
    requires
        books_wf(info),
    ensures
        ({
            let after = fast_processed(i, m, turfs, max_x, max_y, info);
            let d = info[i].mole_delta;
            let n = eligible_count(turfs, info, i, m.adjacency, 6, max_x, max_y);
            let part = d.spec_share(n as u32);
            let gives = |j: int| eligible(turfs, info, i, m.adjacency, j, max_x, max_y);
            &&& !info.contains_key(i) ==> after == info
            &&& info.contains_key(i) && (n == 0 || !A::spec_zero().spec_lt(d)) ==> after
                == info.insert(i, Ledger { fast_done: true, ..info[i] })
            &&& info.contains_key(i) && n > 0 && A::spec_zero().spec_lt(d) ==> {
                &&& after.dom() == info.dom()
                &&& forall|j: int|
                    0 <= j < 7 ==> #[trigger] after[i].transfers[j] == if gives(j) {
                        info[i].transfers[j].spec_plus(part)
                    } else {
                        info[i].transfers[j]
                    }
                &&& after[i].mole_delta == less_times(d, part, n)
                &&& after[i].fast_done
                &&& after[i].curr_transfer_amount == info[i].curr_transfer_amount
                &&& after[i].curr_transfer_dir == info[i].curr_transfer_dir
                &&& forall|j: int|
                    #[trigger] gives(j) ==> {
                        let loc = adjacent(j, i, max_x, max_y);
                        &&& after[loc].transfers[opposite(j)]
                            == info[loc].transfers[opposite(j)].spec_minus(part)
                        &&& !after[loc].fast_done
                        &&& (forall|l: int|
                            #[trigger] gives(l) && adjacent(l, i, max_x, max_y) == loc ==> l == j)
                            ==> {
                            &&& after[loc].mole_delta == info[loc].mole_delta.spec_plus(part)
                            &&& forall|e: int|
                                0 <= e < 7 && e != opposite(j) ==> #[trigger]
                                after[loc].transfers[e] == info[loc].transfers[e]
                        }
                    }
                &&& forall|k: TurfID|
                    k != i && info.contains_key(k) && (forall|j: int| #[trigger]
                        gives(j) ==> adjacent(j, i, max_x, max_y) != k) ==> #[trigger] after[k]
                        == info[k]
            }
        }),
{
    let after = fast_processed(i, m, turfs, max_x, max_y, info);
    let adj = m.adjacency;
    let n = eligible_count(turfs, info, i, adj, 6, max_x, max_y);
    let d = info[i].mole_delta;
    let part = d.spec_share(n as u32);
    let gives = |j: int| eligible(turfs, info, i, adj, j, max_x, max_y);
    if info.contains_key(i) {
        let own = Ledger { fast_done: true, ..info[i] };
        let marked = info.insert(i, own);
        let all = neighbours(adj, i, max_x, max_y, 0, 6);
        let steps = open_steps(turfs, marked, all);
        lemma_open_are_eligible(turfs, info, marked, i, adj, 6, max_x, max_y);
        lemma_open_steps(turfs, marked, all);
        assert(info[i].wf());
        if n > 0 && A::spec_zero().spec_lt(d) {
            assert(marked.dom() =~= info.dom());
            assert forall|k: TurfID| #[trigger] marked.contains_key(k) implies marked[k].wf() by {
                assert(info[k].wf());
            }
            assert forall|k: int|
                #![trigger steps[k]]
                0 <= k < steps.len() implies steps[k].0 < 6 && steps[k].1 != i
                && marked.contains_key(steps[k].1) by {
                assert(open_to(turfs, marked, steps[k].1));
            }
            lemma_shared_out(marked, i, own, steps, part);
            assert(after == shared_out(marked, i, own, steps, part));
            assert forall|j: int| 0 <= j < 7 implies #[trigger] after[i].transfers[j] == if gives(
                j,
            ) {
                info[i].transfers[j].spec_plus(part)
            } else {
                info[i].transfers[j]
            } by {
                if j < 6 {
                    assert(goes(steps, j) <==> gives(j));
                } else {
                    assert(!goes(steps, j));
                }
            }
            assert forall|j: int| #[trigger] gives(j) implies {
                let loc = adjacent(j, i, max_x, max_y);
                &&& after[loc].transfers[opposite(j)]
                    == info[loc].transfers[opposite(j)].spec_minus(part)
                &&& !after[loc].fast_done
                &&& (forall|l: int|
                    #[trigger] gives(l) && adjacent(l, i, max_x, max_y) == loc ==> l == j) ==> {
                    &&& after[loc].mole_delta == info[loc].mole_delta.spec_plus(part)
                    &&& forall|e: int|
                        0 <= e < 7 && e != opposite(j) ==> #[trigger] after[loc].transfers[e]
                            == info[loc].transfers[e]
                }
            } by {
                let loc = adjacent(j, i, max_x, max_y);
                assert(0 <= opposite(j) < 6 && opposite(opposite(j)) == j);
                assert(goes(steps, j));
                let k = choose|k: int| 0 <= k < steps.len() && (#[trigger] steps[k]).0 == j;
                assert(steps[k].1 == loc);
                assert(goes_to(steps, j, loc));
                assert(marked.contains_key(loc));
                if forall|l: int|
                    #[trigger] gives(l) && adjacent(l, i, max_x, max_y) == loc ==> l == j {
                    assert forall|k1: int|
                        0 <= k1 < steps.len() && (#[trigger] steps[k1]).1 == loc implies k1
                        == k by {
                        assert(goes(steps, steps[k1].0 as int));
                        assert(gives(steps[k1].0 as int));
                        assert(steps[k1].0 == j);
                        if k1 < k {
                            assert(steps[k1].0 < steps[k].0);
                        } else if k < k1 {
                            assert(steps[k].0 < steps[k1].0);
                        }
                    }
                    assert(once_to(steps, loc));
                    assert forall|e: int| 0 <= e < 7 && e != opposite(j) implies #[trigger]
                    after[loc].transfers[e] == info[loc].transfers[e] by {
                        if e < 6 && goes_to(steps, opposite(e), loc) {
                            let k1 = choose|k1: int|
                                0 <= k1 < steps.len() && (#[trigger] steps[k1]).0 == opposite(e)
                                    && steps[k1].1 == loc;
                            assert(k1 == k);
                            assert(opposite(opposite(e)) == e);
                        }
                    }
                }
            }
            assert forall|k: TurfID|
                k != i && info.contains_key(k) && (forall|j: int| #[trigger]
                    gives(j) ==> adjacent(j, i, max_x, max_y) != k) implies #[trigger] after[k]
                == info[k] by {
                assert(never_to(steps, k)) by {
                    assert forall|l: int| 0 <= l < steps.len() implies (#[trigger] steps[l]).1
                        != k by {
                        assert(goes(steps, steps[l].0 as int));
                        assert(gives(steps[l].0 as int));
                    }
                }
                assert(marked.contains_key(k));
            }
        }
    }
}

} // verus!
