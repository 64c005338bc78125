//! Matching turfs that have too much gas with turfs that have too little.
use vstd::prelude::*;
use crate::amount::{above_zero, below_zero, is_above_zero, is_below_zero, Amount};
use crate::grid::{
    adjacent, adjacent_tile_id, adjacent_tile_ids_no_orig, neighbours, opposite, opposite_dir,
    TurfID,
};
use crate::info::{Ledger, MonstermosInfo};
use crate::tables::{entry_of, holds, put, InfoMap, MixWithID, Zone};

verus! {

/// Who looks for a match: a turf that has too much, or one that has too little.
#[derive(Clone, Copy, Debug, PartialEq, Eq, Structural)]
pub enum Side {
    Giver,
    Taker,
}

/// A turf on `side` with this `mole_delta` needs no further match.
pub open spec fn satisfied<A: Amount>(side: Side, mole_delta: A) -> bool {
    match side {
        Side::Giver => mole_delta.spec_le(A::spec_zero()),
        Side::Taker => A::spec_zero().spec_le(mole_delta),
    }
}

/// A turf with this `mole_delta` can be matched with one on `side`.
pub open spec fn matches_side<A: Amount>(side: Side, mole_delta: A) -> bool {
    match side {
        Side::Giver => below_zero(mole_delta),
        Side::Taker => above_zero(mole_delta),
    }
}

/// The turf that was found outweighs the one on `side` that looks for it.
pub open spec fn outweighs<A: Amount>(side: Side, found: A, own: A) -> bool {
    match side {
        Side::Giver => own.spec_lt(found.spec_negate()),
        Side::Taker => own.spec_negate().spec_lt(found),
    }
}

/// The books of a turf that has just been reached by a step in direction `dir`.
pub open spec fn reached<A: Amount>(books: Ledger<A>, dir: int) -> Ledger<A> {
    Ledger {
        curr_transfer_dir: opposite(dir),
        curr_transfer_amount: A::spec_zero(),
        ..books
    }
}

/// The books of the turf that was found once it is matched with `own`, and
/// what is then left of `own`.
pub open spec fn matched<A: Amount>(side: Side, found: Ledger<A>, own: A) -> (Ledger<A>, A) {
    if !matches_side(side, found.mole_delta) {
        (found, own)
    } else if outweighs(side, found.mole_delta, own) {
        (
            Ledger {
                curr_transfer_amount: found.curr_transfer_amount.spec_minus(own),
                mole_delta: found.mole_delta.spec_plus(own),
                ..found
            },
            A::spec_zero(),
        )
    } else {
        (
            Ledger {
                curr_transfer_amount: found.curr_transfer_amount.spec_plus(found.mole_delta),
                mole_delta: A::spec_zero(),
                ..found
            },
            own.spec_plus(found.mole_delta),
        )
    }
}

/// A search in progress: the books, the turfs reached in their order, and the
/// books of the turf that the search began with.
#[verifier::ext_equal]
pub struct Search<A> {
    pub info: Map<TurfID, Ledger<A>>,
    pub queue: Seq<MixWithID>,
    pub own: Ledger<A>,
}

/// The search may go on to turf `loc`.
pub open spec fn passable<A: Amount>(
    turfs: Seq<MixWithID>,
    info: Map<TurfID, Ledger<A>>,
    loc: TurfID,
) -> bool {
    info.contains_key(loc) && (entry_of(turfs, loc) matches Some(mixture) && mixture.simulated)
}

/// `info` with `books` for turf `i`, if there are books of `i` already.
pub open spec fn rewritten<A: Amount>(
    info: Map<TurfID, Ledger<A>>,
    i: TurfID,
    books: Ledger<A>,
) -> Map<TurfID, Ledger<A>> {
    if info.contains_key(i) {
        info.insert(i, books)
    } else {
        info
    }
}

/// The search that began with turf `root` looks at one neighbour.
pub open spec fn look<A: Amount>(
    side: Side,
    turfs: Seq<MixWithID>,
    root: TurfID,
    search: Search<A>,
    step: (u8, TurfID),
) -> Search<A> {
    let loc = step.1;
    if !passable(turfs, search.info, loc) {
        Search { info: rewritten(search.info, root, search.own), ..search }
    } else {
        let queue = put(search.queue, loc, entry_of(turfs, loc)->0);
        if holds(search.queue, loc) {
            Search { info: rewritten(search.info, root, search.own), queue, ..search }
        } else {
            let (found, left) = matched(
                side,
                reached(search.info[loc], step.0 as int),
                search.own.mole_delta,
            );
            let own = Ledger { mole_delta: left, ..search.own };
            Search { info: rewritten(search.info.insert(loc, found), root, own), queue, own }
        }
    }
}

/// The search looks at neighbours one by one, until its turf is satisfied.
pub open spec fn look_around<A: Amount>(
    side: Side,
    turfs: Seq<MixWithID>,
    root: TurfID,
    search: Search<A>,
    steps: Seq<(u8, TurfID)>,
) -> Search<A>
    decreases steps.len(),
{
    if steps.len() == 0 || satisfied(side, search.own.mole_delta) {
        search
    } else {
        look_around(side, turfs, root, look(side, turfs, root, search, steps[0]), steps.drop_first())
    }
}

/// The search goes on from the turf at `at` in its queue, breadth first, until
/// its turf is satisfied or nothing is left to look at.
pub open spec fn explore<A: Amount>(
    side: Side,
    turfs: Seq<MixWithID>,
    max_x: int,
    max_y: int,
    root: TurfID,
    search: Search<A>,
    at: int,
) -> Search<A>
    decreases 0x1_0000_0000 - at,
{
    if at >= search.queue.len() || at >= 0x1_0000_0000 || satisfied(side, search.own.mole_delta) {
        search
    } else {
        let (i, mixture) = search.queue[at];
        let next = look_around(
            side,
            turfs,
            root,
            search,
            neighbours(mixture.adjacency, i, max_x, max_y, 0, 6),
        );
        explore(side, turfs, max_x, max_y, root, next, at + 1)
    }
}

/// Turf `i` books what it has to pass on, and the turf it was reached from
/// gets to pass it on in turn.
pub open spec fn pass_on<A: Amount>(
    info: Map<TurfID, Ledger<A>>,
    i: TurfID,
    max_x: int,
    max_y: int,
) -> Map<TurfID, Ledger<A>> {
    let own = info[i];
    let dir = own.curr_transfer_dir;
    let amount = own.curr_transfer_amount;
    let loc = adjacent(dir, i, max_x, max_y);
    if !info.contains_key(i) || amount.spec_same(A::spec_zero()) || dir == 6 || !info.contains_key(
        loc,
    ) {
        info
    } else {
        let back = info[loc].receives(opposite(dir), amount);
        info.insert(
            loc,
            Ledger { curr_transfer_amount: back.curr_transfer_amount.spec_plus(amount), ..back },
        ).insert(i, Ledger { curr_transfer_amount: A::spec_zero(), ..own.sends(dir, amount) })
    }
}

/// All turfs of `queue` pass on what they have to, the last one first.
pub open spec fn pass_all_on<A: Amount>(
    info: Map<TurfID, Ledger<A>>,
    queue: Seq<MixWithID>,
    max_x: int,
    max_y: int,
) -> Map<TurfID, Ledger<A>>
    decreases queue.len(),
{
    if queue.len() == 0 {
        info
    } else {
        pass_all_on(
            pass_on(info, queue.last().0, max_x, max_y),
            queue.drop_last(),
            max_x,
            max_y,
        )
    }
}

/// The search at the moment when `turf` begins it.
pub open spec fn search_from<A: Amount>(
    info: Map<TurfID, Ledger<A>>,
    turf: MixWithID,
) -> Search<A> {
    let own = Ledger {
        curr_transfer_dir: 6,
        curr_transfer_amount: A::spec_zero(),
        ..info[turf.0]
    };
    Search { info: info.insert(turf.0, own), queue: seq![turf], own }
}

/// The books once `turf` has been matched with whom it can reach.
pub open spec fn settled_one<A: Amount>(
    side: Side,
    turfs: Seq<MixWithID>,
    max_x: int,
    max_y: int,
    info: Map<TurfID, Ledger<A>>,
    turf: MixWithID,
) -> Map<TurfID, Ledger<A>> {
    if !info.contains_key(turf.0) {
        info
    } else {
        let end = explore(side, turfs, max_x, max_y, turf.0, search_from(info, turf), 0);
        pass_all_on(end.info, end.queue, max_x, max_y)
    }
}

/// The books once each turf of `list`, in turn, has been matched.
pub open spec fn settled<A: Amount>(
    side: Side,
    list: Seq<MixWithID>,
    turfs: Seq<MixWithID>,
    max_x: int,
    max_y: int,
    info: Map<TurfID, Ledger<A>>,
) -> Map<TurfID, Ledger<A>>
    decreases list.len(),
{
    if list.len() == 0 {
        info
    } else {
        settled_one(
            side,
            turfs,
            max_x,
            max_y,
            settled(side, list.drop_last(), turfs, max_x, max_y, info),
            list.last(),
        )
    }
}

fn is_satisfied<A: Amount>(side: Side, mole_delta: A) -> (r: bool)
    ensures
        r == satisfied(side, mole_delta),
{
    match side {
        Side::Giver => mole_delta.le(A::zero()),
        Side::Taker => A::zero().le(mole_delta),
    }
}

fn is_match<A: Amount>(side: Side, mole_delta: A) -> (r: bool)
    ensures
        r == matches_side(side, mole_delta),
{
    match side {
        Side::Giver => is_below_zero(mole_delta),
        Side::Taker => is_above_zero(mole_delta),
    }
}

fn does_outweigh<A: Amount>(side: Side, found: A, own: A) -> (r: bool)
    ensures
        r == outweighs(side, found, own),
{
    match side {
        Side::Giver => own.lt(found.negate()),
        Side::Taker => own.negate().lt(found),
    }
}

/// Reaches the turf with the books `found` by a step in direction `dir`, and
/// matches it with `own`.
fn reach<A: Amount>(
    side: Side,
    found: &mut MonstermosInfo<A>,
    own: &mut MonstermosInfo<A>,
    dir: usize,
)
    requires
        dir <= 6,
    ensures
        (final(found)@, final(own).mole_delta) == matched(
            side,
            reached(old(found)@, dir as int),
            old(own).mole_delta,
        ),
        final(own)@ == (Ledger { mole_delta: final(own).mole_delta, ..old(own)@ }),
        final(found).curr_transfer_dir <= 6,
{
    found.curr_transfer_dir = opposite_dir(dir);
    found.curr_transfer_amount = A::zero();
    if is_match(side, found.mole_delta) {
        if does_outweigh(side, found.mole_delta, own.mole_delta) {
            found.curr_transfer_amount = found.curr_transfer_amount.minus(own.mole_delta);
            found.mole_delta = found.mole_delta.plus(own.mole_delta);
            own.mole_delta = A::zero();
        } else {
            found.curr_transfer_amount = found.curr_transfer_amount.plus(found.mole_delta);
            own.mole_delta = own.mole_delta.plus(found.mole_delta);
            found.mole_delta = A::zero();
        }
    }
}

/// Looks at the neighbours of the turf `i` of the queue.
fn look_at_neighbours<A: Amount>(
    side: Side,
    turfs: &Zone,
    max_x: i32,
    max_y: i32,
    root: TurfID,
    turf: MixWithID,
    queue: &mut Zone,
    own: &mut MonstermosInfo<A>,
    info: &mut InfoMap<A>,
)
    requires
        old(own)@.wf(),
    ensures
        (Search { info: final(info)@, queue: final(queue)@, own: final(own)@ }) == look_around(
            side,
            turfs@,
            root,
            Search { info: old(info)@, queue: old(queue)@, own: old(own)@ },
            neighbours(turf.1.adjacency, turf.0, max_x as int, max_y as int, 0, 6),
        ),
        final(own)@.wf(),
{
    let mut steps = adjacent_tile_ids_no_orig(turf.1.adjacency, turf.0, max_x, max_y);
    let ghost end = look_around(
        side,
        turfs@,
        root,
        Search { info: info@, queue: queue@, own: own@ },
        steps.remaining(),
    );
    loop
        invariant
            own@.wf(),
            end == look_around(
                side,
                turfs@,
                root,
                Search { info: info@, queue: queue@, own: own@ },
                steps.remaining(),
            ),
            end == look_around(
                side,
                turfs@,
                root,
                Search { info: old(info)@, queue: old(queue)@, own: old(own)@ },
                neighbours(turf.1.adjacency, turf.0, max_x as int, max_y as int, 0, 6),
            ),
        ensures
            own@.wf(),
            end == (Search { info: info@, queue: queue@, own: own@ }),
        decreases steps.remaining().len(),
    {
        let ghost before = Search { info: info@, queue: queue@, own: own@ };
        match steps.next() {
            None => {
                break;
            },
            Some((j, loc)) => {
                if is_satisfied(side, own.mole_delta) {
                    break;
                }
                if let Some(mut found) = info.get(loc) {
                    if let Some(mixture) = turfs.get(loc) {
                        if mixture.enabled() {
                            if queue.insert(loc, mixture).is_none() {
                                reach(side, &mut found, own, j as usize);
                                info.insert(loc, found);
                            }
                        }
                    }
                }
                info.modify(root, *own);
                assert((Search { info: info@, queue: queue@, own: own@ }) == look(
                    side,
                    turfs@,
                    root,
                    before,
                    (j, loc),
                ));
            },
        }
    }
}

/// Lets all turfs of `queue` pass on what they have to, the last one first.
fn pass_back<A: Amount>(queue: &Vec<MixWithID>, max_x: i32, max_y: i32, info: &mut InfoMap<A>)
    ensures
        final(info)@ == pass_all_on(old(info)@, queue@, max_x as int, max_y as int),
{
    let mut left: usize = queue.len();
    assert(queue@.take(left as int) =~= queue@);
    while left > 0
        invariant
            left <= queue.len(),
            pass_all_on(info@, queue@.take(left as int), max_x as int, max_y as int) == pass_all_on(
                old(info)@,
                queue@,
                max_x as int,
                max_y as int,
            ),
        decreases left,
    {
        let ghost before = info@;
        left = left - 1;
        let i: TurfID = queue[left].0;
        proof {
            let upto = queue@.take(left + 1);
            assert(upto.last() == queue@[left as int]);
            assert(upto.drop_last() =~= queue@.take(left as int));
        }
        if let Some(mut own) = info.get(i) {
            let dir: usize = own.curr_transfer_dir;
            let amount: A = own.curr_transfer_amount;
            if !amount.same(A::zero()) && dir != 6 {
                let loc: TurfID = adjacent_tile_id(dir as u8, i, max_x, max_y);
                if let Some(mut back) = info.get(loc) {
                    own.adjust_eq_movement(Some(&mut back), dir, amount);
                    back.curr_transfer_amount = back.curr_transfer_amount.plus(amount);
                    own.curr_transfer_amount = A::zero();
                    info.insert(loc, back);
                    info.insert(i, own);
                }
            }
        }
        assert(info@ =~= pass_on(before, i, max_x as int, max_y as int));
    }
}

/// Matches one turf with whom it can reach.
fn settle_one<A: Amount>(
    side: Side,
    turf: MixWithID,
    turfs: &Zone,
    max_x: i32,
    max_y: i32,
    info: &mut InfoMap<A>,
)
    ensures
        final(info)@ == settled_one(
            side,
            turfs@,
            max_x as int,
            max_y as int,
            old(info)@,
            turf,
        ),
{
    let mut own = match info.get(turf.0) {
        None => {
            return ;
        },
        Some(own) => own,
    };
    own.curr_transfer_dir = 6;
    own.curr_transfer_amount = A::zero();
    info.insert(turf.0, own);
    let mut queue = Zone::new();
    queue.insert(turf.0, turf.1);
    let mut at: usize = 0;
    let ghost start = Search { info: info@, queue: queue@, own: own@ };
    proof {
        assert(queue@ =~= seq![turf]);
        assert(start == search_from(old(info)@, turf));
    }
    let ghost end = explore(side, turfs@, max_x as int, max_y as int, turf.0, start, 0);
    loop
        invariant
            own@.wf(),
            at <= queue@.len(),
            end == explore(
                side,
                turfs@,
                max_x as int,
                max_y as int,
                turf.0,
                Search { info: info@, queue: queue@, own: own@ },
                at as int,
            ),
        ensures
            end == (Search { info: info@, queue: queue@, own: own@ }),
        decreases 0x1_0000_0000 - at,
    {
        proof {
            use_type_invariant(&queue);
            queue.lemma_distinct();
        }
        match queue.get_index(at) {
            None => {
                break;
            },
            Some(next) => {
                if is_satisfied(side, own.mole_delta) {
                    break;
                }
                let ghost before = Search { info: info@, queue: queue@, own: own@ };
                look_at_neighbours(side, turfs, max_x, max_y, turf.0, next, &mut queue, &mut own, info);
                let len: usize = queue.len();
                proof {
                    lemma_look_around_grows(
                        side,
                        turfs@,
                        turf.0,
                        before,
                        neighbours(next.1.adjacency, next.0, max_x as int, max_y as int, 0, 6),
                    );
                }
                assert(at < len);
                at = at + 1;
            },
        }
    }
    let reached_turfs = queue.drain();
    pass_back(&reached_turfs, max_x, max_y, info);
}

/// Matches the turfs of `list`, one after the other.
fn settle<A: Amount>(
    side: Side,
    list: &Vec<MixWithID>,
    turfs: &Zone,
    max_x: i32,
    max_y: i32,
    info: &mut InfoMap<A>,
)
    ensures
        final(info)@ == settled(side, list@, turfs@, max_x as int, max_y as int, old(info)@),
{
    let mut k: usize = 0;
    assert(list@.take(0) =~= Seq::<MixWithID>::empty());
    while k < list.len()
        invariant
            k <= list.len(),
            info@ == settled(
                side,
                list@.take(k as int),
                turfs@,
                max_x as int,
                max_y as int,
                old(info)@,
            ),
        decreases list.len() - k,
    {
        settle_one(side, list[k], turfs, max_x, max_y, info);
        proof {
            assert(list@.take(k + 1).last() == list@[k as int]);
            assert(list@.take(k + 1).drop_last() =~= list@.take(k as int));
        }
        k = k + 1;
    }
    assert(list@.take(k as int) =~= list@);
}

/// Each turf of `giver_turfs`, in turn, searches for turfs that need gas and
/// books what it gives them along the way that it found them on.
pub fn give_to_takers<A: Amount>(
    giver_turfs: &Vec<MixWithID>,
    turfs: &Zone,
    max_x: i32,
    max_y: i32,
    info: &mut InfoMap<A>,
)
    ensures
        final(info)@ == settled(
            Side::Giver,
            giver_turfs@,
            turfs@,
            max_x as int,
            max_y as int,
            old(info)@,
        ),
{
    settle(Side::Giver, giver_turfs, turfs, max_x, max_y, info);
}

/// Each turf of `taker_turfs`, in turn, searches for turfs that have gas to
/// spare and books what it takes from them along the way that it found them on.
pub fn take_from_givers<A: Amount>(
    taker_turfs: &Vec<MixWithID>,
    turfs: &Zone,
    max_x: i32,
    max_y: i32,
    info: &mut InfoMap<A>,
)
    ensures
        final(info)@ == settled(
            Side::Taker,
            taker_turfs@,
            turfs@,
            max_x as int,
            max_y as int,
            old(info)@,
        ),
{
    settle(Side::Taker, taker_turfs, turfs, max_x, max_y, info);
}

/// The queue of a search only grows.
pub proof fn lemma_look_around_grows<A: Amount>(
    side: Side,
    turfs: Seq<MixWithID>,
    root: TurfID,
    search: Search<A>,
    steps: Seq<(u8, TurfID)>,
)
    ensures
        search.queue.len() <= look_around(side, turfs, root, search, steps).queue.len(),
    decreases steps.len(),
{
    if steps.len() > 0 && !satisfied(side, search.own.mole_delta) {
        lemma_look_around_grows(
            side,
            turfs,
            root,
            look(side, turfs, root, search, steps[0]),
            steps.drop_first(),
        );
    }
}

} // verus!
