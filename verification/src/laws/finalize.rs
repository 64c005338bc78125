//! What moving the gas of a zone comes to.
use vstd::prelude::*;
use crate::amount::{above_zero, below_zero, Amount};
use crate::finalize::{agenda_wf, errands, flows, source_bits, stepped, visits, Task};
use crate::grid::{adjacent, TurfID};
use crate::info::Ledger;
use crate::tables::{books_wf, entry_of, MixWithID};

verus! {

/// Zero is neither above nor below zero.
pub open spec fn zero_is_still<A: Amount>() -> bool {
    !A::spec_zero().spec_lt(A::spec_zero())
}

/// Something is booked to move.
pub open spec fn live<A: Amount>(books: Ledger<A>) -> bool {
    exists|d: int|
        0 <= d < 7 && (above_zero(#[trigger] books.transfers[d]) || below_zero(books.transfers[d]))
}

/// Of how many turfs below `n` something is booked to move.
pub open spec fn live_turfs<A: Amount>(info: Map<TurfID, Ledger<A>>, n: nat) -> nat
    decreases n,
{
    if n == 0 {
        0
    } else {
        let i = (n - 1) as u32;
        live_turfs(info, (n - 1) as nat) + if info.contains_key(i) && live(info[i]) {
            1nat
        } else {
            0
        }
    }
}

/// How many steps a task can give rise to, visits to turfs apart.
pub open spec fn weight<A: Amount>(task: Task<A>) -> nat {
    match task {
        Task::Visit { .. } => 1,
        Task::Check { .. } => 8,
        Task::Vent { .. } => 1,
        Task::Draw { .. } => 2,
        Task::Flow { .. } => 2,
        Task::Blow { .. } => 1,
    }
}

/// The weight of all tasks of an agenda.
pub open spec fn load<A: Amount>(agenda: Seq<Task<A>>) -> nat
    decreases agenda.len(),
{
    if agenda.len() == 0 {
        0
    } else {
        load(agenda.drop_last()) + weight(agenda.last())
    }
}

/// What is left to do: the weight of the agenda, and of the task that waits.
pub open spec fn left_to_do<A: Amount>(agenda: Seq<Task<A>>, waiting: Option<Task<A>>) -> int {
    load(agenda) + match waiting {
        Some(task) => weight(task) - 1,
        None => 0,
    }
}

proof fn lemma_load_add<A: Amount>(a: Seq<Task<A>>, b: Seq<Task<A>>)
    ensures
        load(a + b) == load(a) + load(b),
    decreases b.len(),
{
    if b.len() == 0 {
        assert(a + b =~= a);
    } else {
        assert((a + b).drop_last() =~= a + b.drop_last());
        lemma_load_add(a, b.drop_last());
    }
}

proof fn lemma_load_push<A: Amount>(a: Seq<Task<A>>, task: Task<A>)
    ensures
        load(a.push(task)) == load(a) + weight(task),
{
    assert(a.push(task).drop_last() =~= a);
}

proof fn lemma_load_visits<A: Amount>(
    turfs: Seq<MixWithID>,
    max_x: int,
    max_y: int,
    i: TurfID,
    sources: u8,
    dir: int,
)
    requires
        0 <= dir <= 6,
    ensures
        load(visits::<A>(turfs, max_x, max_y, i, sources, dir)) <= 6 - dir,
    decreases 6 - dir,
{
    if dir < 6 {
        lemma_load_visits::<A>(turfs, max_x, max_y, i, sources, dir + 1);
        let later = visits::<A>(turfs, max_x, max_y, i, sources, dir + 1);
        let loc = adjacent(dir, i, max_x, max_y);
        if entry_of(turfs, loc) is Some {
            lemma_load_push(later, Task::Visit { turf: (loc, entry_of(turfs, loc)->0) });
        }
    }
}

/// Where nothing is booked to move, there is nothing to do.
pub proof fn lemma_still<A: Amount>(turf: MixWithID, books: Ledger<A>)
    requires
        !live(books),
        books.wf(),
    ensures
        errands(turf, books.transfers).len() == 0,
{
    let sources = source_bits(books.transfers, turf.1.adjacency, 6);
    assert(!above_zero(books.transfers[6]) && !below_zero(books.transfers[6]));
    lemma_no_flows(turf, books, sources, 0);
}

proof fn lemma_no_flows<A: Amount>(turf: MixWithID, books: Ledger<A>, sources: u8, dir: int)
    requires
        !live(books),
        0 <= dir <= 6,
    ensures
        flows(turf, books.transfers, sources, dir).len() == 0,
    decreases 6 - dir,
{
    if dir < 6 {
        assert(!above_zero(books.transfers[dir]));
        lemma_no_flows(turf, books, sources, dir + 1);
    }
}

/// No turf comes alive if no turf's transfers do.
proof fn lemma_live_turfs<A: Amount>(
    before: Map<TurfID, Ledger<A>>,
    after: Map<TurfID, Ledger<A>>,
    n: nat,
)
    requires
        n <= 0x1_0000_0000,
        forall|k: TurfID| #[trigger]
            after.contains_key(k) && live(after[k]) ==> before.contains_key(k) && live(before[k]),
    ensures
        live_turfs(after, n) <= live_turfs(before, n),
        forall|k: TurfID| #[trigger]
            before.contains_key(k) && k < n && live(before[k]) && !(after.contains_key(k) && live(
                after[k],
            )) ==> live_turfs(after, n) < live_turfs(before, n),
    decreases n,
{
    if n > 0 {
        lemma_live_turfs(before, after, (n - 1) as nat);
        let i = (n - 1) as u32;
        assert(after.contains_key(i) && live(after[i]) ==> before.contains_key(i) && live(
            before[i],
        ));
    }
}

/// The books `after` are the books `before` in all respects, but for transfers
/// that have been set to zero.
pub open spec fn only_spent<A: Amount>(
    before: Map<TurfID, Ledger<A>>,
    after: Map<TurfID, Ledger<A>>,
) -> bool {
    &&& before.dom() == after.dom()
    &&& forall|k: TurfID| #[trigger]
        before.contains_key(k) ==> after[k].transfers.len() == 7 && after[k] == (Ledger {
            transfers: after[k].transfers,
            ..before[k]
        })
    &&& forall|k: TurfID, d: int|
        #![trigger after[k].transfers[d]]
        before.contains_key(k) && 0 <= d < 7 ==> after[k].transfers[d] == before[k].transfers[d]
            || after[k].transfers[d] == A::spec_zero()
}

/// No step books anything: transfers stay as they are or are set to zero.
pub proof fn steps_only_spend<A: Amount>(
    turfs: Seq<MixWithID>,
    max_x: int,
    max_y: int,
    agenda: Seq<Task<A>>,
    info: Map<TurfID, Ledger<A>>,
)
    requires
        books_wf(info),
        agenda_wf(agenda),
    ensures
        only_spent(info, stepped(turfs, max_x, max_y, agenda, info).info),
        books_wf(stepped(turfs, max_x, max_y, agenda, info).info),
{
    let after = stepped(turfs, max_x, max_y, agenda, info).info;
    assert(after.dom() =~= info.dom());
    assert forall|k: TurfID| #[trigger] info.contains_key(k) implies info[k].wf() by {}
    if agenda.len() > 0 {
        let task = agenda[agenda.len() - 1];
        assert(task matches Task::Flow { dir, .. } ==> dir < 6);
    }
    assert forall|k: TurfID| #[trigger] after.contains_key(k) implies after[k].wf() by {
        assert(info.contains_key(k));
    }
}

/// Nothing is booked to leave turf `i` or to come in there.
pub open spec fn spent<A: Amount>(info: Map<TurfID, Ledger<A>>, i: TurfID) -> bool {
    info.contains_key(i) ==> forall|d: int|
        0 <= d < 7 ==> #[trigger] info[i].transfers[d] == A::spec_zero()
}

/// Every turf is worked off but once: a visit leaves nothing booked for the
/// turf, and where nothing is booked, no step books anything.
pub proof fn visited_turfs_stay_spent<A: Amount>(
    turfs: Seq<MixWithID>,
    max_x: int,
    max_y: int,
    agenda: Seq<Task<A>>,
    info: Map<TurfID, Ledger<A>>,
)
    requires
        books_wf(info),
        agenda_wf(agenda),
        agenda.len() > 0,
    ensures
        ({
            let next = stepped(turfs, max_x, max_y, agenda, info);
            &&& agenda.last() matches Task::Visit { turf } ==> spent(next.info, turf.0)
            &&& forall|i: TurfID| #[trigger] spent(info, i) ==> spent(next.info, i)
        }),
{
    let next = stepped(turfs, max_x, max_y, agenda, info);
    steps_only_spend(turfs, max_x, max_y, agenda, info);
    assert forall|i: TurfID| #[trigger] spent(info, i) implies spent(next.info, i) by {
        assert(info.contains_key(i) == next.info.contains_key(i));
        if info.contains_key(i) {
            assert forall|d: int| 0 <= d < 7 implies #[trigger] next.info[i].transfers[d]
                == A::spec_zero() by {
                assert(info[i].transfers[d] == A::spec_zero());
            }
        }
    }
}

/// A turf with nothing to move stays so.
pub proof fn lemma_spent_stays<A: Amount>(
    before: Map<TurfID, Ledger<A>>,
    after: Map<TurfID, Ledger<A>>,
)
    requires
        zero_is_still::<A>(),
        only_spent(before, after),
    ensures
        forall|k: TurfID| #[trigger]
            after.contains_key(k) && live(after[k]) ==> before.contains_key(k) && live(before[k]),
{
    assert forall|k: TurfID| #[trigger]
        after.contains_key(k) && live(after[k]) implies before.contains_key(k) && live(
        before[k],
    ) by {
        assert(before.contains_key(k));
        let d = choose|d: int|
            0 <= d < 7 && (above_zero(#[trigger] after[k].transfers[d]) || below_zero(
                after[k].transfers[d],
            ));
        assert(after[k].transfers[d] == before[k].transfers[d]);
    }
}

/// Every step makes headway: fewer turfs have something booked to move, or as
/// many and there is less left to do. As neither can go on forever, the work
/// comes to an end, though turfs can wait for each other in a circle.
pub proof fn steps_make_headway<A: Amount>(
    turfs: Seq<MixWithID>,
    max_x: int,
    max_y: int,
    agenda: Seq<Task<A>>,
    info: Map<TurfID, Ledger<A>>,
)
    requires
        zero_is_still::<A>(),
        books_wf(info),
        agenda_wf(agenda),
        agenda.len() > 0,
    ensures
        ({
            let next = stepped(turfs, max_x, max_y, agenda, info);
            let before = live_turfs(info, 0x1_0000_0000);
            let after = live_turfs(next.info, 0x1_0000_0000);
            ||| after < before
            ||| after == before && 0 <= left_to_do(next.agenda, next.waiting) < left_to_do(
                agenda,
                None,
            )
        }),
{
    let next = stepped(turfs, max_x, max_y, agenda, info);
    let rest = agenda.drop_last();
    steps_only_spend(turfs, max_x, max_y, agenda, info);
    lemma_spent_stays(info, next.info);
    lemma_live_turfs(info, next.info, 0x1_0000_0000);
    match agenda.last() {
        Task::Visit { turf } => {
            if info.contains_key(turf.0) {
                let books = info[turf.0];
                assert(books.wf());
                if live(books) {
                    assert(!live(next.info[turf.0]));
                    assert(next.info.contains_key(turf.0));
                } else {
                    lemma_still(turf, books);
                    assert(next.agenda =~= rest);
                }
            }
        },
        Task::Flow { turf, dir, amount } => {
            let loc = adjacent(dir as int, turf.0, max_x, max_y);
            lemma_load_push(rest, Task::Blow { from: turf.0, to: loc, amount });
        },
        _ => {},
    }
}

/// An answer makes headway, too: the visits that it may lead to are less to do
/// than what waited for it.
pub proof fn answers_make_headway<A: Amount>(
    turfs: Seq<MixWithID>,
    max_x: int,
    max_y: int,
    agenda: Seq<Task<A>>,
    turf: MixWithID,
    sources: u8,
    amount: A,
    mix: usize,
    planet: u32,
)
    ensures
        left_to_do(agenda + visits(turfs, max_x, max_y, turf.0, sources, 0), None) < left_to_do(
            agenda,
            Some(Task::Check { turf, sources, amount }),
        ),
        left_to_do(agenda, None) < left_to_do(
            agenda,
            Some(Task::Check { turf, sources, amount }),
        ),
        left_to_do(agenda, None) < left_to_do(agenda, Some(Task::Draw { mix, planet, amount })),
{
    lemma_load_visits::<A>(turfs, max_x, max_y, turf.0, sources, 0);
    lemma_load_add(agenda, visits(turfs, max_x, max_y, turf.0, sources, 0));
}

/// The neighbours that are visited before a turf gives away more than it holds
/// are those that gas is booked to come from.
pub proof fn sources_are_inflows<A: Amount>(transfers: Seq<A>, adjacency: u8, upto: int, j: u8)
    requires
        0 <= upto <= 6,
        j < 6,
    ensures
        (source_bits(transfers, adjacency, upto) & (1u8 << j) == 1u8 << j) == (j < upto
            && adjacency & (1u8 << j) == 1u8 << j && below_zero(transfers[j as int])),
    decreases upto,
{
    if upto <= 0 {
        assert(0u8 & (1u8 << j) != 1u8 << j) by (bit_vector)
            requires
                j < 6,
        ;
    } else {
        sources_are_inflows(transfers, adjacency, upto - 1, j);
        let rest = source_bits(transfers, adjacency, upto - 1);
        let d = (upto - 1) as u8;
        assert(d < 6);
        assert((rest | (1u8 << d)) & (1u8 << d) == 1u8 << d) by (bit_vector)
            requires
                d < 6,
        ;
        if d != j {
            assert((rest | (1u8 << d)) & (1u8 << j) == rest & (1u8 << j)) by (bit_vector)
                requires
                    d < 6,
                    j < 6,
                    d != j,
            ;
        }
    }
}

/// The task does what the books `transfers` of its turf say.
pub open spec fn by_the_books<A: Amount>(turf: MixWithID, transfers: Seq<A>, task: Task<A>) -> bool {
    match task {
        Task::Flow { turf: from, dir, amount } => {
            &&& from == turf
            &&& dir < 6 && turf.1.adjacency & (1u8 << dir) == 1u8 << dir
            &&& amount == transfers[dir as int] && above_zero(amount)
        },
        Task::Check { turf: from, sources, amount } => {
            &&& from == turf
            &&& above_zero(amount)
            &&& sources == source_bits(transfers, turf.1.adjacency, 6)
        },
        Task::Vent { mix, amount } => {
            &&& mix == turf.1.mix
            &&& amount == transfers[6] && above_zero(amount)
        },
        Task::Draw { mix, planet, amount } => {
            &&& mix == turf.1.mix
            &&& Some(planet) == turf.1.planetary_atmos
            &&& amount == transfers[6] && below_zero(amount)
        },
        Task::Visit { .. } => false,
        Task::Blow { .. } => false,
    }
}

proof fn lemma_flows<A: Amount>(turf: MixWithID, transfers: Seq<A>, dir: int)
    requires
        0 <= dir <= 6,
    ensures
        ({
            let tasks = flows(
                turf,
                transfers,
                source_bits(transfers, turf.1.adjacency, 6),
                dir,
            );
            &&& forall|p: int|
                0 <= p < tasks.len() ==> by_the_books(turf, transfers, #[trigger] tasks[p])
            &&& forall|d: u8|
                #![trigger transfers[d as int]]
                dir <= d < 6 && turf.1.adjacency & (1u8 << d) == 1u8 << d && above_zero(
                    transfers[d as int],
                ) ==> tasks.contains(Task::Flow { turf, dir: d, amount: transfers[d as int] })
        }),
    decreases 6 - dir,
{
    if dir < 6 {
        let sources = source_bits(transfers, turf.1.adjacency, 6);
        lemma_flows(turf, transfers, dir + 1);
        let later = flows(turf, transfers, sources, dir + 1);
        let tasks = flows(turf, transfers, sources, dir);
        assert forall|d: u8|
            #![trigger transfers[d as int]]
            dir <= d < 6 && turf.1.adjacency & (1u8 << d) == 1u8 << d && above_zero(
                transfers[d as int],
            ) implies tasks.contains(
            Task::Flow { turf, dir: d, amount: transfers[d as int] },
        ) by {
            let task = Task::Flow { turf, dir: d, amount: transfers[d as int] };
            if d == dir {
                assert(tasks[later.len() as int] == task);
            } else {
                assert(later.contains(task));
                let p = choose|p: int| 0 <= p < later.len() && later[p] == task;
                assert(tasks[p] == task);
            }
        }
    }
}

/// A visit sets off what the books say and nothing else: gas flows only in
/// directions that are open and for which something is booked to leave, as
/// much as is booked, and it does so in all of these directions.
pub proof fn visits_follow_the_books<A: Amount>(turf: MixWithID, transfers: Seq<A>)
    ensures
        forall|p: int|
            0 <= p < errands(turf, transfers).len() ==> by_the_books(
                turf,
                transfers,
                #[trigger] errands(turf, transfers)[p],
            ),
        forall|d: u8|
            #![trigger transfers[d as int]]
            d < 6 && turf.1.adjacency & (1u8 << d) == 1u8 << d && above_zero(transfers[d as int])
                ==> errands(turf, transfers).contains(
                Task::Flow { turf, dir: d, amount: transfers[d as int] },
            ),
{
    lemma_flows(turf, transfers, 0);
    let sources = source_bits(transfers, turf.1.adjacency, 6);
    let later = flows(turf, transfers, sources, 0);
    let tasks = errands(turf, transfers);
    assert forall|d: u8|
        #![trigger transfers[d as int]]
        d < 6 && turf.1.adjacency & (1u8 << d) == 1u8 << d && above_zero(
            transfers[d as int],
        ) implies tasks.contains(Task::Flow { turf, dir: d, amount: transfers[d as int] }) by {
        let task = Task::Flow { turf, dir: d, amount: transfers[d as int] };
        assert(later.contains(task));
        let p = choose|p: int| 0 <= p < later.len() && later[p] == task;
        assert(tasks[p] == task);
    }
}

} // verus!
