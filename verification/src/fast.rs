//! The first, quick round: a turf shares what it has too much of with its
//! neighbours.
use vstd::prelude::*;
use crate::amount::{above_zero, is_above_zero, Amount};
use crate::grid::{adjacent_tile_ids_no_orig, lemma_neighbours, neighbours, opposite, TurfID};
use crate::info::{Ledger, MonstermosInfo};
use crate::tables::{entry_of, InfoMap, MixWithID, TurfMixture, Zone};

verus! {

/// Turf `loc` is open to a neighbour's surplus: it takes part, and it has not
/// had its turn.
pub open spec fn open_to<A: Amount>(
    turfs: Seq<MixWithID>,
    info: Map<TurfID, Ledger<A>>,
    loc: TurfID,
) -> bool {
    &&& entry_of(turfs, loc) matches Some(mixture) && mixture.simulated
    &&& info.contains_key(loc) && !info[loc].fast_done
}

/// The steps of `steps` that lead to turfs open to a surplus.
pub open spec fn open_steps<A: Amount>(
    turfs: Seq<MixWithID>,
    info: Map<TurfID, Ledger<A>>,
    steps: Seq<(u8, TurfID)>,
) -> Seq<(u8, TurfID)>
    decreases steps.len(),
{
    if steps.len() == 0 {
        Seq::empty()
    } else {
        let rest = open_steps(turfs, info, steps.drop_last());
        if open_to(turfs, info, steps.last().1) {
            rest.push(steps.last())
        } else {
            rest
        }
    }
}

/// Turf `i` with the books `own` moves `moles` along each of `steps`.
pub open spec fn shared_out<A: Amount>(
    info: Map<TurfID, Ledger<A>>,
    i: TurfID,
    own: Ledger<A>,
    steps: Seq<(u8, TurfID)>,
    moles: A,
) -> Map<TurfID, Ledger<A>>
    decreases steps.len(),
{
    if steps.len() == 0 {
        info
    } else {
        let (j, loc) = steps[0];
        let sent = own.sends(j as int, moles);
        let after = Ledger { mole_delta: own.mole_delta.spec_minus(moles), ..sent };
        let got = info[loc].receives(opposite(j as int), moles);
        let next = info.insert(
            loc,
            Ledger { mole_delta: got.mole_delta.spec_plus(moles), ..got },
        ).insert(i, after);
        shared_out(next, i, after, steps.drop_first(), moles)
    }
}

/// The books after the turn of turf `i`.
pub open spec fn fast_processed<A: Amount>(
    i: TurfID,
    m: TurfMixture,
    turfs: Seq<MixWithID>,
    max_x: int,
    max_y: int,
    info: Map<TurfID, Ledger<A>>,
) -> Map<TurfID, Ledger<A>> {
    if !info.contains_key(i) {
        info
    } else {
        let own = Ledger { fast_done: true, ..info[i] };
        let marked = info.insert(i, own);
        let steps = open_steps(turfs, marked, neighbours(m.adjacency, i, max_x, max_y, 0, 6));
        if !above_zero(own.mole_delta) || steps.len() == 0 {
            marked
        } else {
            shared_out(marked, i, own, steps, own.mole_delta.spec_share(steps.len() as u32))
        }
    }
}

/// Open steps are steps, in the same order, to turfs open to a surplus.
pub proof fn lemma_open_steps<A: Amount>(
    turfs: Seq<MixWithID>,
    info: Map<TurfID, Ledger<A>>,
    steps: Seq<(u8, TurfID)>,
)
    ensures
        open_steps(turfs, info, steps).len() <= steps.len(),
        forall|k: int|
            #![trigger open_steps(turfs, info, steps)[k]]
            0 <= k < open_steps(turfs, info, steps).len() ==> open_to(
                turfs,
                info,
                open_steps(turfs, info, steps)[k].1,
            ) && steps.contains(open_steps(turfs, info, steps)[k]),
    decreases steps.len(),
{
    if steps.len() > 0 {
        let before = steps.drop_last();
        lemma_open_steps(turfs, info, before);
        let all = open_steps(turfs, info, steps);
        assert forall|k: int| 0 <= k < all.len() implies open_to(turfs, info, (#[trigger] all[k]).1)
            && steps.contains(all[k]) by {
            if k < open_steps(turfs, info, before).len() {
                let one = open_steps(turfs, info, before)[k];
                assert(before.contains(one));
                let p = choose|p: int| 0 <= p < before.len() && before[p] == one;
                assert(steps[p] == one);
            } else {
                assert(steps[steps.len() - 1] == all[k]);
            }
        }
    }
}

/// Sharing out begins no new books.
pub proof fn lemma_shared_out_keeps_turfs<A: Amount>(
    info: Map<TurfID, Ledger<A>>,
    i: TurfID,
    own: Ledger<A>,
    steps: Seq<(u8, TurfID)>,
    moles: A,
)
    requires
        info.contains_key(i),
        forall|k: int| 0 <= k < steps.len() ==> info.contains_key((#[trigger] steps[k]).1),
    ensures
        shared_out(info, i, own, steps, moles).dom() == info.dom(),
    decreases steps.len(),
{
    if steps.len() > 0 {
        let (j, loc) = steps[0];
        let sent = own.sends(j as int, moles);
        let after = Ledger { mole_delta: own.mole_delta.spec_minus(moles), ..sent };
        let got = info[loc].receives(opposite(j as int), moles);
        let next = info.insert(
            loc,
            Ledger { mole_delta: got.mole_delta.spec_plus(moles), ..got },
        ).insert(i, after);
        assert(next.dom() =~= info.dom());
        lemma_shared_out_keeps_turfs(next, i, after, steps.drop_first(), moles);
    }
}

/// The quick round begins no new books.
pub proof fn lemma_fast_keeps_turfs<A: Amount>(
    i: TurfID,
    m: TurfMixture,
    turfs: Seq<MixWithID>,
    max_x: int,
    max_y: int,
    info: Map<TurfID, Ledger<A>>,
)
    ensures
        fast_processed(i, m, turfs, max_x, max_y, info).dom() == info.dom(),
{
    if info.contains_key(i) {
        let own = Ledger { fast_done: true, ..info[i] };
        let marked = info.insert(i, own);
        let all = neighbours(m.adjacency, i, max_x, max_y, 0, 6);
        let steps = open_steps(turfs, marked, all);
        lemma_open_steps(turfs, marked, all);
        assert(marked.dom() =~= info.dom());
        lemma_shared_out_keeps_turfs(
            marked,
            i,
            own,
            steps,
            own.mole_delta.spec_share(steps.len() as u32),
        );
    }
}

/// The neighbours of turf `i` that are open to its surplus.
fn find_open<A: Amount>(
    i: TurfID,
    adjacency: u8,
    turfs: &Zone,
    max_x: i32,
    max_y: i32,
    info: &InfoMap<A>,
) -> (found: Vec<(u8, TurfID)>)
    ensures
        found@ == open_steps(
            turfs@,
            info@,
            neighbours(adjacency, i, max_x as int, max_y as int, 0, 6),
        ),
{
    let ghost all = neighbours(adjacency, i, max_x as int, max_y as int, 0, 6);
    let mut found: Vec<(u8, TurfID)> = Vec::new();
    let mut steps = adjacent_tile_ids_no_orig(adjacency, i, max_x, max_y);
    let ghost mut seen: int = 0;
    assert(all.take(0) =~= Seq::<(u8, TurfID)>::empty());
    assert(all.skip(0) =~= all);
    loop
        invariant
            0 <= seen <= all.len(),
            steps.remaining() == all.skip(seen),
            found@ == open_steps(turfs@, info@, all.take(seen)),
        ensures
            found@ == open_steps(turfs@, info@, all),
        decreases steps.remaining().len(),
    {
        match steps.next() {
            None => {
                assert(all.take(seen) =~= all);
                break;
            },
            Some((j, loc)) => {
                if let Some(mixture) = turfs.get(loc) {
                    if mixture.enabled() {
                        if let Some(books) = info.get(loc) {
                            if !books.fast_done {
                                found.push((j, loc));
                            }
                        }
                    }
                }
                proof {
                    assert(all.take(seen + 1).last() == (j, loc));
                    assert(all.take(seen + 1).drop_last() =~= all.take(seen));
                    assert(all.skip(seen).drop_first() =~= all.skip(seen + 1));
                    seen = seen + 1;
                }
            },
        }
    }
    found
}

/// Gives turf `i` its turn in the quick round: what it has too much of goes in
/// equal shares to its neighbours that have not had theirs.
pub fn monstermos_fast_process<A: Amount>(
    i: TurfID,
    m: &TurfMixture,
    turfs: &Zone,
    max_x: i32,
    max_y: i32,
    info: &mut InfoMap<A>,
)
    ensures
        final(info)@ == fast_processed(
            i,
            *m,
            turfs@,
            max_x as int,
            max_y as int,
            old(info)@,
        ),
{
    let mut own: MonstermosInfo<A> = match info.get(i) {
        None => {
            return ;
        },
        Some(own) => own,
    };
    own.fast_done = true;
    info.insert(i, own);
    let ghost marked = info@;
    let ghost marked_own = own@;
    if is_above_zero(own.mole_delta) {
        let eligible = find_open(i, m.adjacency, turfs, max_x, max_y, info);
        let ghost all = neighbours(m.adjacency, i, max_x as int, max_y as int, 0, 6);
        proof {
            lemma_neighbours(m.adjacency, i, max_x as int, max_y as int, 0, 6);
            lemma_open_steps(turfs@, info@, all);
        }
        if eligible.len() == 0 {
            return ;
        }
        let moles_to_move: A = own.mole_delta.share(eligible.len() as u32);
        let mut k: usize = 0;
        assert(eligible@.skip(0) =~= eligible@);
        while k < eligible.len()
            invariant
                k <= eligible.len(),
                own@.wf(),
                info@.dom() == marked.dom(),
                forall|p: int|
                    0 <= p < eligible.len() ==> (#[trigger] eligible@[p]).0 < 6
                        && marked.contains_key(eligible@[p].1),
                shared_out(info@, i, own@, eligible@.skip(k as int), moles_to_move) == shared_out(
                    marked,
                    i,
                    marked_own,
                    eligible@,
                    moles_to_move,
                ),
                marked.contains_key(i),
            decreases eligible.len() - k,
        {
            let (j, loc) = eligible[k];
            if let Some(mut adj) = info.get(loc) {
                own.adjust_eq_movement(Some(&mut adj), j as usize, moles_to_move);
                own.mole_delta = own.mole_delta.minus(moles_to_move);
                adj.mole_delta = adj.mole_delta.plus(moles_to_move);
                info.insert(loc, adj);
            }
            info.modify(i, own);
            proof {
                assert(eligible@.skip(k as int).drop_first() =~= eligible@.skip(k + 1));
                assert(eligible@.skip(k as int)[0] == (j, loc));
                assert(info@.dom() =~= marked.dom());
            }
            k = k + 1;
        }
        assert(eligible@.skip(k as int) =~= Seq::<(u8, TurfID)>::empty());
    }
}

} // verus!
