//! What a turf that is worked off sets off, and in what order.
use vstd::prelude::*;
use crate::amount::Amount;
use crate::finalize::{
    checked, drawn, errands, flows, source_bits, stepped, visits, Effect, Task,
};
use crate::grid::{adjacent, TurfID};
use crate::info::Ledger;
use crate::laws::runs::source_turfs;
use crate::tables::{books_wf, entry_of, MixWithID};

verus! {

/// The amount that the task lets go, if it lets any go that the turf has to have.
pub open spec fn given_away<A: Amount>(task: Task<A>) -> Option<A> {
    match task {
        Task::Flow { amount, .. } => Some(amount),
        Task::Vent { amount, .. } => Some(amount),
        _ => None,
    }
}

/// The direction in which the task lets gas flow; an exchange with the planet goes before all.
pub open spec fn rank<A: Amount>(task: Task<A>) -> int {
    match task {
        Task::Flow { dir, .. } => dir as int,
        _ => -1,
    }
}

/// The tasks are done in ascending direction, from the last one on, and whatever gives gas away
/// comes right after a check of as much as it gives away.
pub open spec fn orderly<A: Amount>(tasks: Seq<Task<A>>, turf: MixWithID, sources: u8) -> bool {
    &&& forall|p: int|
        0 <= p < tasks.len() && given_away(#[trigger] tasks[p]) is Some ==> p + 1 < tasks.len()
            && tasks[p + 1] == (Task::Check { turf, sources, amount: given_away(tasks[p])->0 })
    &&& forall|p: int|
        0 <= p < tasks.len() && (#[trigger] tasks[p]) is Check ==> p > 0 && given_away(tasks[p - 1])
            is Some
    &&& forall|p: int, q: int|
        0 <= p < q < tasks.len() && !((#[trigger] tasks[p]) is Check) && !((
        #[trigger] tasks[q]) is Check) ==> rank(tasks[p]) > rank(tasks[q])
}

proof fn lemma_flows_orderly<A: Amount>(
    turf: MixWithID,
    transfers: Seq<A>,
    sources: u8,
    dir: int,
)
    requires
        0 <= dir <= 6,
    ensures
        orderly(flows(turf, transfers, sources, dir), turf, sources),
        forall|p: int|
            0 <= p < flows(turf, transfers, sources, dir).len() && !((#[trigger] flows(
                turf,
                transfers,
                sources,
                dir,
            )[p]) is Check) ==> rank(flows(turf, transfers, sources, dir)[p]) >= dir,
    decreases 6 - dir,
{
    if dir < 6 {
        lemma_flows_orderly(turf, transfers, sources, dir + 1);
        let later = flows(turf, transfers, sources, dir + 1);
        let tasks = flows(turf, transfers, sources, dir);
        let n = later.len() as int;
        assert forall|p: int| 0 <= p < n implies #[trigger] tasks[p] == later[p] by {}
        assert forall|p: int|
            0 <= p < tasks.len() && given_away(#[trigger] tasks[p]) is Some implies p + 1
            < tasks.len() && tasks[p + 1] == (Task::Check {
            turf,
            sources,
            amount: given_away(tasks[p])->0,
        }) by {
            if p < n {
                assert(given_away(later[p]) is Some);
                assert(tasks[p + 1] == later[p + 1]);
            }
        }
        assert forall|p: int| 0 <= p < tasks.len() && (#[trigger] tasks[p]) is Check implies p > 0
            && given_away(tasks[p - 1]) is Some by {
            if p < n {
                assert(later[p] is Check);
                assert(tasks[p - 1] == later[p - 1]);
            }
        }
        assert forall|p: int, q: int|
            0 <= p < q < tasks.len() && !((#[trigger] tasks[p]) is Check) && !((
            #[trigger] tasks[q]) is Check) implies rank(tasks[p]) > rank(tasks[q]) by {
            if q < n {
                assert(!(later[p] is Check) && !(later[q] is Check));
            }
        }
    }
}

/// What a visit sets off is done in order: first the exchange with the planet, then the flows, in
/// ascending direction. Before each flow, and before gas is given to the planet, comes a check that
/// the turf holds as much, and no check comes without.
pub proof fn errands_are_orderly<A: Amount>(turf: MixWithID, transfers: Seq<A>)
    ensures
        orderly(
            errands(turf, transfers),
            turf,
            source_bits(transfers, turf.1.adjacency, 6),
        ),
{
    let sources = source_bits(transfers, turf.1.adjacency, 6);
    lemma_flows_orderly(turf, transfers, sources, 0);
    let later = flows(turf, transfers, sources, 0);
    let tasks = errands(turf, transfers);
    let n = later.len() as int;
    assert forall|p: int| 0 <= p < n implies #[trigger] tasks[p] == later[p] by {}
    assert forall|p: int|
        0 <= p < tasks.len() && given_away(#[trigger] tasks[p]) is Some implies p + 1 < tasks.len()
        && tasks[p + 1] == (Task::Check { turf, sources, amount: given_away(tasks[p])->0 }) by {
        if p < n {
            assert(given_away(later[p]) is Some);
            assert(tasks[p + 1] == later[p + 1]);
        }
    }
    assert forall|p: int| 0 <= p < tasks.len() && (#[trigger] tasks[p]) is Check implies p > 0
        && given_away(tasks[p - 1]) is Some by {
        if p < n {
            assert(later[p] is Check);
            assert(tasks[p - 1] == later[p - 1]);
        }
    }
    assert forall|p: int, q: int|
        0 <= p < q < tasks.len() && !((#[trigger] tasks[p]) is Check) && !((
        #[trigger] tasks[q]) is Check) implies rank(tasks[p]) > rank(tasks[q]) by {
        if q < n {
            assert(!(later[p] is Check) && !(later[q] is Check));
        } else if p < n {
            assert(!(later[p] is Check));
        }
    }
}

proof fn lemma_visits<A: Amount>(
    turfs: Seq<MixWithID>,
    max_x: int,
    max_y: int,
    i: TurfID,
    sources: u8,
    dir: int,
)
    requires
        0 <= dir <= 6,
    ensures
        ({
            let list = source_turfs(turfs, max_x, max_y, i, sources, dir);
            let tasks = visits::<A>(turfs, max_x, max_y, i, sources, dir);
            &&& tasks.len() == list.len()
            &&& forall|p: int|
                0 <= p < list.len() ==> tasks[list.len() - 1 - p] == (Task::<A>::Visit {
                    turf: #[trigger] list[p],
                })
        }),
    decreases 6 - dir,
{
    if dir < 6 {
        lemma_visits::<A>(turfs, max_x, max_y, i, sources, dir + 1);
        let later = source_turfs(turfs, max_x, max_y, i, sources, dir + 1);
        let list = source_turfs(turfs, max_x, max_y, i, sources, dir);
        assert forall|p: int| 0 <= p < list.len() implies visits::<A>(
            turfs,
            max_x,
            max_y,
            i,
            sources,
            dir,
        )[list.len() - 1 - p] == (Task::<A>::Visit { turf: #[trigger] list[p] }) by {
            if list.len() > later.len() {
                if p > 0 {
                    assert(list[p] == later[p - 1]);
                }
            } else {
                assert(list[p] == later[p]);
            }
        }
    }
}

/// A turf that holds less than it is to give away waits for its sources: of the neighbours in the
/// directions of `sources` all that belong to the zone are visited next, in ascending direction,
/// before anything that was to be done. A turf that holds as much waits for none.
pub proof fn short_turfs_wait_for_their_sources<A: Amount>(
    turfs: Seq<MixWithID>,
    max_x: int,
    max_y: int,
    agenda: Seq<Task<A>>,
    i: TurfID,
    sources: u8,
    amount: A,
    moles: A,
)
    ensures
        ({
            let list = source_turfs(turfs, max_x, max_y, i, sources, 0);
            let next = checked(turfs, max_x, max_y, agenda, i, sources, amount, moles);
            &&& agenda.is_prefix_of(next)
            &&& !moles.spec_lt(amount) ==> next == agenda
            &&& moles.spec_lt(amount) ==> {
                &&& next.len() == agenda.len() + list.len()
                &&& forall|p: int|
                    0 <= p < list.len() ==> next[next.len() - 1 - p] == (Task::<A>::Visit {
                        turf: #[trigger] list[p],
                    })
            }
        }),
{
    lemma_visits::<A>(turfs, max_x, max_y, i, sources, 0);
}

/// What is asked for of a planet is in proportion to what it holds: `-amount` of its `total`, and
/// nothing if it is not known to hold anything.
pub proof fn planets_give_a_part<A: Amount>(mix: usize, planet: u32, amount: A, sum: Option<A>)
    ensures
        match drawn(mix, planet, amount, sum) {
            Effect::Merge { mix: m, planet: p, amount: part, total } => {
                &&& m == mix && p == planet
                &&& part == amount.spec_negate()
                &&& sum == Some(total) && A::spec_zero().spec_lt(total)
            },
            Effect::Nothing => sum is None || !A::spec_zero().spec_lt(sum->0),
            _ => false,
        },
{
}

/// Each task asks for its own thing, once. To give to the planet takes the amount from the air.
/// To let gas flow shares it with the air of the neighbour, and makes it felt next; if both turfs
/// have the same air, it is only made felt, and if the neighbour has no books or does not belong
/// to the zone, nothing is asked for. A check and a draw wait for an answer, and nothing else
/// does. Nothing is asked for by a visit. What was to be done before stays to be done.
pub proof fn tasks_ask_for_their_own<A: Amount>(
    turfs: Seq<MixWithID>,
    max_x: int,
    max_y: int,
    agenda: Seq<Task<A>>,
    task: Task<A>,
    info: Map<TurfID, Ledger<A>>,
)
    ensures
        ({
            let next = stepped(turfs, max_x, max_y, agenda.push(task), info);
            &&& agenda.is_prefix_of(next.agenda)
            &&& next.waiting == if task is Check || task is Draw {
                Some(task)
            } else {
                None
            }
            &&& match task {
                Task::Visit { .. } => next.effect == Effect::<A>::Nothing,
                Task::Check { turf, .. } => next.effect == (Effect::<A>::ReadMoles {
                    mix: turf.1.mix,
                }) && next.agenda == agenda && next.info == info,
                Task::Vent { mix, amount } => next.effect == (Effect::Add {
                    mix,
                    amount: amount.spec_negate(),
                }) && next.agenda == agenda && next.info == info,
                Task::Draw { planet, .. } => next.effect == (Effect::<A>::ReadPlanet { planet })
                    && next.agenda == agenda && next.info == info,
                Task::Blow { from, to, amount } => next.effect == (Effect::Consider {
                    turf: from,
                    other: to,
                    amount,
                }) && next.agenda == agenda && next.info == info,
                Task::Flow { turf, dir, amount } => {
                    let loc = adjacent(dir as int, turf.0, max_x, max_y);
                    if entry_of(turfs, loc) is None || !info.contains_key(loc) {
                        next.effect == Effect::<A>::Nothing && next.agenda == agenda && next.info
                            == info
                    } else if (entry_of(turfs, loc)->0).mix == turf.1.mix {
                        next.effect == (Effect::Consider { turf: turf.0, other: loc, amount })
                            && next.agenda == agenda
                    } else {
                        &&& next.effect == (Effect::Share {
                            from: turf.1.mix,
                            to: (entry_of(turfs, loc)->0).mix,
                            amount,
                        })
                        &&& next.agenda == agenda.push(
                            Task::Blow { from: turf.0, to: loc, amount },
                        )
                    }
                },
            }
        }),
        stepped(turfs, max_x, max_y, Seq::empty(), info).effect == Effect::<A>::Finished,
{
    assert(agenda.push(task).drop_last() =~= agenda);
    assert(agenda.push(task).last() == task);
}

/// What is carried out is struck from the books, and nothing else is. A visit leaves nothing booked
/// for its turf. A flow strikes what the neighbour has booked in the direction from which the gas
/// comes. All other tasks leave the books alone.
pub proof fn tasks_strike_what_they_do<A: Amount>(
    turfs: Seq<MixWithID>,
    max_x: int,
    max_y: int,
    agenda: Seq<Task<A>>,
    task: Task<A>,
    info: Map<TurfID, Ledger<A>>,
    k: TurfID,
)
    requires
        books_wf(info),
        task matches Task::Flow { dir, .. } ==> dir < 6,
    ensures
        ({
            let next = stepped(turfs, max_x, max_y, agenda.push(task), info).info;
            &&& next.contains_key(k) == info.contains_key(k)
            &&& info.contains_key(k) ==> {
                &&& next[k] == (Ledger { transfers: next[k].transfers, ..info[k] })
                &&& next[k].transfers.len() == 7
                &&& forall|d: int|
                    0 <= d < 7 ==> #[trigger] next[k].transfers[d] == (if struck(
                        turfs,
                        max_x,
                        max_y,
                        task,
                        k,
                        d,
                    ) {
                        A::spec_zero()
                    } else {
                        info[k].transfers[d]
                    })
            }
        }),
{
    assert(agenda.push(task).drop_last() =~= agenda);
    assert(agenda.push(task).last() == task);
    if info.contains_key(k) {
        assert(info[k].wf());
    }
}

/// The task strikes what turf `k` has booked in direction `d`.
pub open spec fn struck<A: Amount>(
    turfs: Seq<MixWithID>,
    max_x: int,
    max_y: int,
    task: Task<A>,
    k: TurfID,
    d: int,
) -> bool {
    match task {
        Task::Visit { turf } => k == turf.0,
        Task::Flow { turf, dir, .. } => k == adjacent(dir as int, turf.0, max_x, max_y)
            && entry_of(turfs, k) is Some && d == if dir % 2 == 0 {
            dir + 1
        } else {
            dir - 1
        },
        _ => false,
    }
}

} // verus!
