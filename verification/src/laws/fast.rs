//! What the quick round keeps.
use vstd::prelude::*;
use crate::amount::{exact, signed, Amount};
use crate::balance::{
    booked, holdings, lemma_booked_in_step, lemma_holdings, lemma_same_in_step, same_transfers,
    sixth_kept, stays_in_step,
};
use crate::fast::{fast_processed, lemma_open_steps, open_steps, open_to, shared_out};
use crate::grid::{adjacent, lemma_neighbours, neighbours, opposite, TurfID};
use crate::info::Ledger;
use crate::laws::sums::{delta_at, lemma_moved_delta, lemma_same_delta, whole_delta};
use crate::tables::{books_wf, MixWithID, TurfMixture};
use crate::zone::all_fast_processed;

verus! {

/// The same turfs have books, and the holdings of none have changed.
pub open spec fn same_holdings<A: Amount>(
    before: Map<TurfID, Ledger<A>>,
    after: Map<TurfID, Ledger<A>>,
) -> bool {
    &&& before.dom() == after.dom()
    &&& forall|k: TurfID| #[trigger]
        before.contains_key(k) ==> holdings(after[k]) == holdings(before[k])
}

proof fn lemma_shared_out<A: Amount>(
    info: Map<TurfID, Ledger<A>>,
    i: TurfID,
    own: Ledger<A>,
    steps: Seq<(u8, TurfID)>,
    moles: A,
    max_x: int,
    max_y: int,
)
    requires
        books_wf(info),
        info.contains_key(i),
        info[i] == own,
        forall|k: int|
            #![trigger steps[k]]
            0 <= k < steps.len() ==> {
                &&& steps[k].0 < 6
                &&& steps[k].1 == adjacent(steps[k].0 as int, i, max_x, max_y)
                &&& steps[k].1 != i
                &&& info.contains_key(steps[k].1)
            },
    ensures
        books_wf(shared_out(info, i, own, steps, moles)),
        shared_out(info, i, own, steps, moles).dom() == info.dom(),
        sixth_kept(info, shared_out(info, i, own, steps, moles)),
        exact::<A>() ==> same_holdings(info, shared_out(info, i, own, steps, moles)),
        exact::<A>() ==> whole_delta(shared_out(info, i, own, steps, moles)) == whole_delta(info),
        signed::<A>() ==> stays_in_step(
            info,
            shared_out(info, i, own, steps, moles),
            max_x,
            max_y,
        ),
    decreases steps.len(),
{
    if steps.len() > 0 {
        let (j, loc) = steps[0];
        let after = Ledger {
            mole_delta: own.mole_delta.spec_minus(moles),
            ..own.sends(j as int, moles)
        };
        let got = info[loc].receives(opposite(j as int), moles);
        let there = Ledger { mole_delta: got.mole_delta.spec_plus(moles), ..got };
        let next = info.insert(loc, there).insert(i, after);
        assert(next.dom() =~= info.dom());
        assert(own.wf() && info[loc].wf());
        if exact::<A>() {
            lemma_holdings(own, j as int, moles);
            lemma_holdings(info[loc], opposite(j as int), moles);
            assert forall|k: TurfID| k != i && k != loc implies #[trigger] delta_at(info, k)
                == delta_at(next, k) by {}
            lemma_moved_delta(info, next, loc, i, moles);
        }
        assert forall|k: TurfID| #[trigger] info.contains_key(k) implies (exact::<A>()
            ==> holdings(next[k]) == holdings(info[k])) && next[k].wf() by {
            assert(info[k].wf());
        }
        assert(books_wf(next));
        assert(booked(info, next, i, j as int, moles, max_x, max_y));
        lemma_booked_in_step(info, next, i, j as int, moles, max_x, max_y);
        lemma_shared_out(next, i, after, steps.drop_first(), moles, max_x, max_y);
        let end = shared_out(next, i, after, steps.drop_first(), moles);
        assert forall|k: TurfID| #[trigger] info.contains_key(k) implies (exact::<A>() ==> holdings(
            end[k],
        ) == holdings(info[k])) && end[k].transfers[6] == info[k].transfers[6] by {
            assert(next.contains_key(k));
        }
    }
}

/// The turn of a turf in the quick round changes no turf's holdings, nor how far
/// all turfs are above their due in all, if amounts are exact, and leaves books in step that were in step, if they are signed.
pub proof fn fast_process_conserves<A: Amount>(
    i: TurfID,
    m: TurfMixture,
    turfs: Seq<MixWithID>,
    max_x: int,
    max_y: int,
    info: Map<TurfID, Ledger<A>>,
)
    requires
        books_wf(info),
    ensures
        books_wf(fast_processed(i, m, turfs, max_x, max_y, info)),
        fast_processed(i, m, turfs, max_x, max_y, info).dom() == info.dom(),
        sixth_kept(info, fast_processed(i, m, turfs, max_x, max_y, info)),
        exact::<A>() ==> same_holdings(info, fast_processed(i, m, turfs, max_x, max_y, info)),
        exact::<A>() ==> whole_delta(fast_processed(i, m, turfs, max_x, max_y, info)) == whole_delta(info),
        signed::<A>() ==> stays_in_step(
            info,
            fast_processed(i, m, turfs, max_x, max_y, info),
            max_x,
            max_y,
        ),
{
    if info.contains_key(i) {
        let own = Ledger { fast_done: true, ..info[i] };
        let marked = info.insert(i, own);
        assert(marked.dom() =~= info.dom());
        assert(info[i].wf());
        assert forall|k: TurfID| #[trigger] marked.contains_key(k) implies marked[k].wf() by {
            assert(info.contains_key(k));
        }
        assert(same_transfers(info, marked));
        lemma_same_in_step(info, marked, max_x, max_y);
        assert forall|k: TurfID| k < 0x1_0000_0000 implies #[trigger] delta_at(info, k) == delta_at(
            marked,
            k,
        ) by {}
        lemma_same_delta(info, marked, 0x1_0000_0000);
        let all = neighbours(m.adjacency, i, max_x, max_y, 0, 6);
        let steps = open_steps(turfs, marked, all);
        lemma_neighbours(m.adjacency, i, max_x, max_y, 0, 6);
        lemma_open_steps(turfs, marked, all);
        assert forall|k: int|
            #![trigger steps[k]]
            0 <= k < steps.len() implies {
            &&& steps[k].0 < 6
            &&& steps[k].1 == adjacent(steps[k].0 as int, i, max_x, max_y)
            &&& steps[k].1 != i
            &&& marked.contains_key(steps[k].1)
        } by {
            assert(open_to(turfs, marked, steps[k].1));
            assert(all.contains(steps[k]));
            let p = choose|p: int| 0 <= p < all.len() && all[p] == steps[k];
            assert(all[p].1 == adjacent(all[p].0 as int, i, max_x, max_y));
        }
        lemma_shared_out(
            marked,
            i,
            own,
            steps,
            own.mole_delta.spec_share(steps.len() as u32),
            max_x,
            max_y,
        );
        let end = fast_processed(i, m, turfs, max_x, max_y, info);
        assert forall|k: TurfID| #[trigger] info.contains_key(k) implies (exact::<A>() ==> holdings(
            end[k],
        ) == holdings(info[k])) && end[k].transfers[6] == info[k].transfers[6] by {
            assert(marked.contains_key(k));
        }
    }
}

/// The whole quick round changes no turf's holdings, nor how far all turfs are
/// above their due in all, if amounts are exact, and
/// leaves books in step that were in step, if they are signed.
pub proof fn quick_round_conserves<A: Amount>(
    list: Seq<MixWithID>,
    turfs: Seq<MixWithID>,
    max_x: int,
    max_y: int,
    info: Map<TurfID, Ledger<A>>,
)
    requires
        books_wf(info),
    ensures
        books_wf(all_fast_processed(list, turfs, max_x, max_y, info)),
        all_fast_processed(list, turfs, max_x, max_y, info).dom() == info.dom(),
        sixth_kept(info, all_fast_processed(list, turfs, max_x, max_y, info)),
        exact::<A>() ==> same_holdings(info, all_fast_processed(list, turfs, max_x, max_y, info)),
        exact::<A>() ==> whole_delta(all_fast_processed(list, turfs, max_x, max_y, info)) == whole_delta(info),
        signed::<A>() ==> stays_in_step(
            info,
            all_fast_processed(list, turfs, max_x, max_y, info),
            max_x,
            max_y,
        ),
    decreases list.len(),
{
    if list.len() > 0 {
        quick_round_conserves(list.drop_last(), turfs, max_x, max_y, info);
        let between = all_fast_processed(list.drop_last(), turfs, max_x, max_y, info);
        fast_process_conserves(list.last().0, list.last().1, turfs, max_x, max_y, between);
        let end = all_fast_processed(list, turfs, max_x, max_y, info);
        assert forall|k: TurfID| #[trigger] info.contains_key(k) implies (exact::<A>() ==> holdings(
            end[k],
        ) == holdings(info[k])) && end[k].transfers[6] == info[k].transfers[6] by {
            assert(between.contains_key(k));
        }
    }
}

} // verus!
