//! What the quick round does to whole quanta.
use vstd::prelude::*;
use crate::amount::{above_zero, Amount};
use crate::fast::{fast_processed, lemma_open_steps, open_steps, open_to, shared_out};
use crate::grid::{lemma_neighbours, neighbours, opposite, TurfID};
use crate::info::Ledger;
use crate::laws::level::{
    above, all_above, all_booked, lemma_same_total, lemma_total, representable,
};
use crate::quanta::Quanta;
use crate::tables::{distinct, holds, place, MixWithID, TurfMixture};
use crate::zone::all_fast_processed;

verus! {

/// How far the first `n` turfs of `turfs` are above their due, those that are
/// below it not counted.
pub open spec fn all_surplus(
    turfs: Seq<MixWithID>,
    info: Map<TurfID, Ledger<Quanta>>,
    n: int,
) -> int
    decreases n,
{
    if n <= 0 {
        0
    } else {
        all_surplus(turfs, info, n - 1) + if above(info, turfs[n - 1].0) > 0 {
            above(info, turfs[n - 1].0)
        } else {
            0
        }
    }
}

/// All surplus together can be represented, and so can the negative of any amount.
pub open spec fn roomy(turfs: Seq<MixWithID>, info: Map<TurfID, Ledger<Quanta>>) -> bool {
    &&& representable(info)
    &&& all_surplus(turfs, info, turfs.len() as int) <= i64::MAX
}

proof fn lemma_same_surplus(
    turfs: Seq<MixWithID>,
    a: Map<TurfID, Ledger<Quanta>>,
    b: Map<TurfID, Ledger<Quanta>>,
    n: int,
)
    requires
        n <= turfs.len(),
        forall|p: int| 0 <= p < n ==> above(a, (#[trigger] turfs[p]).0) == above(b, turfs[p].0),
    ensures
        all_surplus(turfs, a, n) == all_surplus(turfs, b, n),
    decreases n,
{
    if n > 0 {
        lemma_same_surplus(turfs, a, b, n - 1);
        assert(above(a, turfs[n - 1].0) == above(b, turfs[n - 1].0));
    }
}

spec fn positive(x: int) -> int {
    if x > 0 {
        x
    } else {
        0
    }
}

/// What changes of all surplus if that of two turfs changes.
proof fn lemma_surplus(
    turfs: Seq<MixWithID>,
    a: Map<TurfID, Ledger<Quanta>>,
    b: Map<TurfID, Ledger<Quanta>>,
    n: int,
    p: int,
    q: int,
)
    requires
        0 <= n <= turfs.len(),
        0 <= p < turfs.len(),
        0 <= q < turfs.len(),
        p != q,
        forall|k: int|
            0 <= k < turfs.len() && k != p && k != q ==> above(a, (#[trigger] turfs[k]).0)
                == above(b, turfs[k].0),
    ensures
        all_surplus(turfs, b, n) - all_surplus(turfs, a, n) == (if p < n {
            positive(above(b, turfs[p].0)) - positive(above(a, turfs[p].0))
        } else {
            0
        }) + (if q < n {
            positive(above(b, turfs[q].0)) - positive(above(a, turfs[q].0))
        } else {
            0
        }),
        all_surplus(turfs, a, n) >= (if p < n {
            positive(above(a, turfs[p].0))
        } else {
            0
        }) + (if q < n {
            positive(above(a, turfs[q].0))
        } else {
            0
        }),
    decreases n,
{
    if n > 0 {
        lemma_surplus(turfs, a, b, n - 1, p, q);
        if n - 1 != p && n - 1 != q {
            assert(above(a, turfs[n - 1].0) == above(b, turfs[n - 1].0));
        }
    }
}

/// From the books `before` to the books `after` nothing has been lost, and there
/// is still room.
pub open spec fn shared(
    turfs: Seq<MixWithID>,
    before: Map<TurfID, Ledger<Quanta>>,
    after: Map<TurfID, Ledger<Quanta>>,
) -> bool {
    &&& before.dom() == after.dom()
    &&& all_above(turfs, before, turfs.len() as int) == all_above(
        turfs,
        after,
        turfs.len() as int,
    )
    &&& roomy(turfs, after)
}

/// One share goes to a neighbour.
proof fn lemma_one_share(
    turfs: Seq<MixWithID>,
    info: Map<TurfID, Ledger<Quanta>>,
    next: Map<TurfID, Ledger<Quanta>>,
    i: TurfID,
    loc: TurfID,
    moles: Quanta,
)
    requires
        distinct(turfs),
        roomy(turfs, info),
        holds(turfs, i),
        holds(turfs, loc),
        i != loc,
        info.contains_key(i),
        info.contains_key(loc),
        0 <= moles.n <= above(info, i),
        next.dom() == info.dom(),
        next[i].mole_delta == info[i].mole_delta.spec_minus(moles),
        next[loc].mole_delta == info[loc].mole_delta.spec_plus(moles),
        forall|k: TurfID| k != i && k != loc ==> #[trigger] next[k] == info[k],
    ensures
        shared(turfs, info, next),
        above(next, i) == above(info, i) - moles.n,
{
    let p = place(turfs, i);
    let q = place(turfs, loc);
    let len = turfs.len() as int;
    assert(turfs[p].0 == i && turfs[q].0 == loc);
    assert forall|k: int| 0 <= k < turfs.len() && k != p && k != q implies above(
        info,
        (#[trigger] turfs[k]).0,
    ) == above(next, turfs[k].0) by {
        if k < p {
            assert(turfs[k].0 != turfs[p].0);
        } else {
            assert(turfs[p].0 != turfs[k].0);
        }
        if k < q {
            assert(turfs[k].0 != turfs[q].0);
        } else {
            assert(turfs[q].0 != turfs[k].0);
        }
        assert(next[turfs[k].0] == info[turfs[k].0]);
    }
    lemma_surplus(turfs, info, next, len, p, q);
    assert(above(info, loc) + moles.n <= i64::MAX);
    assert(above(next, loc) == above(info, loc) + moles.n);
    lemma_total(turfs, info, next, len, p, q);
    assert forall|k: TurfID| #[trigger] next.contains_key(k) implies above(next, k) > i64::MIN by {
        assert(info.contains_key(k));
        if k != i && k != loc {
            assert(next[k] == info[k]);
        }
    }
}

proof fn lemma_shared_out(
    turfs: Seq<MixWithID>,
    info: Map<TurfID, Ledger<Quanta>>,
    i: TurfID,
    own: Ledger<Quanta>,
    steps: Seq<(u8, TurfID)>,
    moles: Quanta,
)
    requires
        distinct(turfs),
        roomy(turfs, info),
        holds(turfs, i),
        info.contains_key(i),
        info[i] == own,
        0 <= moles.n,
        steps.len() * moles.n <= own.mole_delta.n,
        forall|k: int|
            #![trigger steps[k]]
            0 <= k < steps.len() ==> steps[k].1 != i && info.contains_key(steps[k].1) && holds(
                turfs,
                steps[k].1,
            ),
    ensures
        shared(turfs, info, shared_out(info, i, own, steps, moles)),
    decreases steps.len(),
{
    if steps.len() > 0 {
        let (j, loc) = steps[0];
        let after = Ledger {
            mole_delta: own.mole_delta.spec_minus(moles),
            ..own.sends(j as int, moles)
        };
        let got = info[loc].receives(opposite(j as int), moles);
        let there = Ledger { mole_delta: got.mole_delta.spec_plus(moles), ..got };
        let next = info.insert(loc, there).insert(i, after);
        let rest = steps.drop_first();
        assert(next.dom() =~= info.dom());
        assert(steps.len() * moles.n == moles.n + rest.len() * moles.n) by (nonlinear_arith)
            requires
                steps.len() == rest.len() + 1,
        ;
        assert(0 <= rest.len() * moles.n) by (nonlinear_arith)
            requires
                0 <= moles.n,
        ;
        lemma_one_share(turfs, info, next, i, loc, moles);
        assert forall|k: int|
            #![trigger rest[k]]
            0 <= k < rest.len() implies rest[k].1 != i && next.contains_key(rest[k].1) && holds(
            turfs,
            rest[k].1,
        ) by {
            assert(rest[k] == steps[k + 1]);
        }
        lemma_shared_out(turfs, next, i, after, rest, moles);
    }
}

/// The turn of a turf in the quick round loses nothing, and leaves room.
proof fn lemma_fast_processed(
    i: TurfID,
    m: TurfMixture,
    turfs: Seq<MixWithID>,
    max_x: int,
    max_y: int,
    info: Map<TurfID, Ledger<Quanta>>,
)
    requires
        distinct(turfs),
        all_booked(turfs, info),
        roomy(turfs, info),
        holds(turfs, i),
    ensures
        shared(turfs, info, fast_processed(i, m, turfs, max_x, max_y, info)),
{
    let len = turfs.len() as int;
    assert(info.contains_key(turfs[place(turfs, i)].0));
    let own = Ledger { fast_done: true, ..info[i] };
    let marked = info.insert(i, own);
    assert(marked.dom() =~= info.dom());
    assert forall|p: int| 0 <= p < turfs.len() implies above(info, (#[trigger] turfs[p]).0)
        == above(marked, turfs[p].0) by {}
    lemma_same_total(turfs, info, marked, len);
    lemma_same_surplus(turfs, info, marked, len);
    assert forall|k: TurfID| #[trigger] marked.contains_key(k) implies above(marked, k)
        > i64::MIN by {
        assert(info.contains_key(k));
    }
    let all = neighbours(m.adjacency, i, max_x, max_y, 0, 6);
    let steps = open_steps(turfs, marked, all);
    lemma_neighbours(m.adjacency, i, max_x, max_y, 0, 6);
    lemma_open_steps(turfs, marked, all);
    if above_zero(own.mole_delta) && steps.len() > 0 {
        let n = steps.len() as int;
        let d = own.mole_delta.n as int;
        let moles = own.mole_delta.spec_share(steps.len() as u32);
        vstd::arithmetic::div_mod::lemma_fundamental_div_mod(d, n);
        vstd::arithmetic::div_mod::lemma_div_pos_is_pos(d, n);
        assert(d / n <= d) by (nonlinear_arith)
            requires
                d > 0,
                n > 0,
        ;
        assert(moles.n == d / n);
        assert(steps.len() * moles.n == n * (d / n));
        assert forall|k: int|
            #![trigger steps[k]]
            0 <= k < steps.len() implies steps[k].1 != i && marked.contains_key(steps[k].1)
            && holds(turfs, steps[k].1) by {
            assert(open_to(turfs, marked, steps[k].1));
        }
        lemma_shared_out(turfs, marked, i, own, steps, moles);
    }
}

/// The quick round loses nothing, and leaves room.
pub proof fn quick_round_loses_nothing(
    list: Seq<MixWithID>,
    turfs: Seq<MixWithID>,
    max_x: int,
    max_y: int,
    info: Map<TurfID, Ledger<Quanta>>,
)
    requires
        distinct(turfs),
        all_booked(turfs, info),
        roomy(turfs, info),
        forall|p: int| 0 <= p < list.len() ==> holds(turfs, (#[trigger] list[p]).0),
    ensures
        shared(turfs, info, all_fast_processed(list, turfs, max_x, max_y, info)),
    decreases list.len(),
{
    if list.len() > 0 {
        let front = list.drop_last();
        let between = all_fast_processed(front, turfs, max_x, max_y, info);
        assert forall|p: int| 0 <= p < front.len() implies holds(
            turfs,
            (#[trigger] front[p]).0,
        ) by {
            assert(front[p] == list[p]);
        }
        quick_round_loses_nothing(front, turfs, max_x, max_y, info);
        assert forall|p: int| 0 <= p < turfs.len() implies between.contains_key(
            (#[trigger] turfs[p]).0,
        ) by {
            assert(info.contains_key(turfs[p].0));
        }
        assert(holds(turfs, list[list.len() - 1].0));
        lemma_fast_processed(
            list.last().0,
            list.last().1,
            turfs,
            max_x,
            max_y,
            between,
        );
    }
}

} // verus!
