//! Moving the gas of a zone as its books say.
//!
//! What is moved first decides what is there to be moved next, so the work is
//! cut into steps: each tells what has to be done to the air, or what has to
//! be read of it before the next step can be taken.
use vstd::prelude::*;
use crate::amount::{above_zero, below_zero, is_above_zero, is_below_zero, Amount};
use crate::grid::{adjacent, adjacent_tile_id, has_dir, opposite, opposite_dir, TurfID};
use crate::info::Ledger;
use crate::tables::{entry_of, InfoMap, MixWithID, Zone};

verus! {

/// Something that is still to be done.
pub enum Task<A: Amount> {
    /// Carry out what the books say of a turf.
    Visit { turf: MixWithID },
    /// Make sure that a turf holds `amount`: if it does not, the neighbours in
    /// the directions `sources` are visited first.
    Check { turf: MixWithID, sources: u8, amount: A },
    /// Give `amount` to the planet.
    Vent { mix: usize, amount: A },
    /// Take `amount` from the planet.
    Draw { mix: usize, planet: u32, amount: A },
    /// Let `amount` flow in direction `dir`.
    Flow { turf: MixWithID, dir: u8, amount: A },
    /// Make the flow of `amount` between two turfs felt.
    Blow { from: TurfID, to: TurfID, amount: A },
}

impl<A: Amount> Clone for Task<A> {
    fn clone(&self) -> (task: Self)
        ensures
            task == *self,
    {
        *self
    }
}

impl<A: Amount> Copy for Task<A> {

}

/// What a step asks for.
pub enum Effect<A: Amount> {
    /// All is done.
    Finished,
    /// Nothing.
    Nothing,
    /// Read how much gas is in the air `mix`, and answer with [`Finalizer::tell_moles`].
    ReadMoles { mix: usize },
    /// Read how much gas the atmosphere of `planet` holds, and answer with
    /// [`Finalizer::tell_planet`].
    ReadPlanet { planet: u32 },
    /// Add `amount` to the air `mix`.
    Add { mix: usize, amount: A },
    /// Merge into the air `mix` the part `amount / total` of the atmosphere of `planet`.
    Merge { mix: usize, planet: u32, amount: A, total: A },
    /// Remove `amount` from the air `from`, and merge it into the air `to`.
    Share { from: usize, to: usize, amount: A },
    /// Let turf `turf` consider its pressure difference of `amount` to `other`.
    Consider { turf: TurfID, other: TurfID, amount: A },
}

/// The directions below `upto` that are set in `adjacency` and from which gas
/// is to come in.
pub open spec fn source_bits<A: Amount>(transfers: Seq<A>, adjacency: u8, upto: int) -> u8
    decreases upto,
{
    if upto <= 0 {
        0
    } else {
        let rest = source_bits(transfers, adjacency, upto - 1);
        let bit = 1u8 << ((upto - 1) as u8);
        if adjacency & bit == bit && below_zero(transfers[upto - 1]) {
            rest | bit
        } else {
            rest
        }
    }
}

/// The flows of a turf in the directions from `dir` on, each after a check
/// that there is enough. The task to do first comes last.
pub open spec fn flows<A: Amount>(
    turf: MixWithID,
    transfers: Seq<A>,
    sources: u8,
    dir: int,
) -> Seq<Task<A>>
    decreases 6 - dir,
{
    if dir >= 6 {
        Seq::empty()
    } else {
        let later = flows(turf, transfers, sources, dir + 1);
        let bit = 1u8 << (dir as u8);
        let amount = transfers[dir];
        if turf.1.adjacency & bit == bit && above_zero(amount) {
            later.push(Task::Flow { turf, dir: dir as u8, amount }).push(
                Task::Check { turf, sources, amount },
            )
        } else {
            later
        }
    }
}

/// All that the books of a turf ask for: first its exchange with the planet,
/// then its flows. The task to do first comes last.
pub open spec fn errands<A: Amount>(turf: MixWithID, transfers: Seq<A>) -> Seq<Task<A>> {
    let sources = source_bits(transfers, turf.1.adjacency, 6);
    let later = flows(turf, transfers, sources, 0);
    let amount = transfers[6];
    if above_zero(amount) {
        later.push(Task::Vent { mix: turf.1.mix, amount }).push(
            Task::Check { turf, sources, amount },
        )
    } else if below_zero(amount) && turf.1.planetary_atmos is Some {
        later.push(
            Task::Draw { mix: turf.1.mix, planet: turf.1.planetary_atmos->0, amount },
        )
    } else {
        later
    }
}

/// Visits to the neighbours of turf `i` in the directions of `sources` from
/// `dir` on, as far as they belong to the zone. The first one comes last.
pub open spec fn visits<A: Amount>(
    turfs: Seq<MixWithID>,
    max_x: int,
    max_y: int,
    i: TurfID,
    sources: u8,
    dir: int,
) -> Seq<Task<A>>
    decreases 6 - dir,
{
    if dir >= 6 {
        Seq::empty()
    } else {
        let later = visits(turfs, max_x, max_y, i, sources, dir + 1);
        let bit = 1u8 << (dir as u8);
        let loc = adjacent(dir, i, max_x, max_y);
        match entry_of(turfs, loc) {
            Some(mixture) => if sources & bit == bit {
                later.push(Task::Visit { turf: (loc, mixture) })
            } else {
                later
            },
            None => later,
        }
    }
}

/// The books of a turf with nothing left to move.
pub open spec fn nulled<A: Amount>(books: Ledger<A>) -> Ledger<A> {
    Ledger { transfers: Seq::new(7, |d: int| A::spec_zero()), ..books }
}

/// The work on one turf and on those it depends on: what is to be done, the
/// books, the task that waits for an answer, and what is asked for.
#[verifier::ext_equal]
pub struct Progress<A: Amount> {
    pub agenda: Seq<Task<A>>,
    pub info: Map<TurfID, Ledger<A>>,
    pub waiting: Option<Task<A>>,
    pub effect: Effect<A>,
}

/// The next step of the work.
pub open spec fn stepped<A: Amount>(
    turfs: Seq<MixWithID>,
    max_x: int,
    max_y: int,
    agenda: Seq<Task<A>>,
    info: Map<TurfID, Ledger<A>>,
) -> Progress<A> {
    if agenda.len() == 0 {
        Progress { agenda, info, waiting: None, effect: Effect::Finished }
    } else {
        let rest = agenda.drop_last();
        match agenda.last() {
            Task::Visit { turf } => if info.contains_key(turf.0) {
                Progress {
                    agenda: rest + errands(turf, info[turf.0].transfers),
                    info: info.insert(turf.0, nulled(info[turf.0])),
                    waiting: None,
                    effect: Effect::Nothing,
                }
            } else {
                Progress { agenda: rest, info, waiting: None, effect: Effect::Nothing }
            },
            Task::Check { turf, sources, amount } => Progress {
                agenda: rest,
                info,
                waiting: Some(agenda.last()),
                effect: Effect::ReadMoles { mix: turf.1.mix },
            },
            Task::Vent { mix, amount } => Progress {
                agenda: rest,
                info,
                waiting: None,
                effect: Effect::Add { mix, amount: amount.spec_negate() },
            },
            Task::Draw { mix, planet, amount } => Progress {
                agenda: rest,
                info,
                waiting: Some(agenda.last()),
                effect: Effect::ReadPlanet { planet },
            },
            Task::Flow { turf, dir, amount } => {
                let loc = adjacent(dir as int, turf.0, max_x, max_y);
                let back = opposite(dir as int);
                match entry_of(turfs, loc) {
                    Some(mixture) => if info.contains_key(loc) {
                        let spent = Ledger {
                            transfers: info[loc].transfers.update(back, A::spec_zero()),
                            ..info[loc]
                        };
                        if turf.1.mix != mixture.mix {
                            Progress {
                                agenda: rest.push(
                                    Task::Blow { from: turf.0, to: loc, amount },
                                ),
                                info: info.insert(loc, spent),
                                waiting: None,
                                effect: Effect::Share {
                                    from: turf.1.mix,
                                    to: mixture.mix,
                                    amount,
                                },
                            }
                        } else {
                            Progress {
                                agenda: rest,
                                info: info.insert(loc, spent),
                                waiting: None,
                                effect: Effect::Consider { turf: turf.0, other: loc, amount },
                            }
                        }
                    } else {
                        Progress { agenda: rest, info, waiting: None, effect: Effect::Nothing }
                    },
                    None => Progress { agenda: rest, info, waiting: None, effect: Effect::Nothing },
                }
            },
            Task::Blow { from, to, amount } => Progress {
                agenda: rest,
                info,
                waiting: None,
                effect: Effect::Consider { turf: from, other: to, amount },
            },
        }
    }
}

/// The agenda once it is known how much gas the turf of a check holds: if that is
/// not enough, the neighbours in the directions `sources` come first.
pub open spec fn checked<A: Amount>(
    turfs: Seq<MixWithID>,
    max_x: int,
    max_y: int,
    agenda: Seq<Task<A>>,
    i: TurfID,
    sources: u8,
    amount: A,
    moles: A,
) -> Seq<Task<A>> {
    if moles.spec_lt(amount) {
        agenda + visits(turfs, max_x, max_y, i, sources, 0)
    } else {
        agenda
    }
}

/// What is asked for once it is known how much gas the planet holds.
pub open spec fn drawn<A: Amount>(mix: usize, planet: u32, amount: A, sum: Option<A>) -> Effect<A> {
    match sum {
        Some(total) => if above_zero(total) {
            Effect::Merge { mix, planet, amount: amount.spec_negate(), total }
        } else {
            Effect::Nothing
        },
        None => Effect::Nothing,
    }
}

/// Every flow on the agenda has a direction to flow in.
pub open spec fn agenda_wf<A: Amount>(agenda: Seq<Task<A>>) -> bool {
    forall|p: int|
        0 <= p < agenda.len() ==> ((#[trigger] agenda[p]) matches Task::Flow { dir, .. } ==> dir < 6)
}

/// The work on a turf, as far as it has got.
pub struct Finalizer<A: Amount> {
    agenda: Vec<Task<A>>,
    waiting: Option<Task<A>>,
}

impl<A: Amount> Finalizer<A> {
    #[verifier::type_invariant]
    pub closed spec fn wf(self) -> bool {
        agenda_wf(self.agenda@)
    }

    /// What is still to be done; the task to do first comes last.
    pub closed spec fn agenda(self) -> Seq<Task<A>> {
        self.agenda@
    }

    /// The task that waits for an answer.
    pub closed spec fn waiting(self) -> Option<Task<A>> {
        self.waiting
    }

    /// Begins the work on a turf.
    pub fn finalize_eq(turf: MixWithID) -> (work: Self)
        ensures
            work.agenda() == seq![Task::<A>::Visit { turf }],
            work.waiting() is None,
    {
        let mut agenda: Vec<Task<A>> = Vec::new();
        agenda.push(Task::Visit { turf });
        assert(agenda@ =~= seq![Task::<A>::Visit { turf }]);
        Finalizer { agenda, waiting: None }
    }

    /// Takes the next step of the work.
    pub fn step(
        &mut self,
        turfs: &Zone,
        max_x: i32,
        max_y: i32,
        info: &mut InfoMap<A>,
    ) -> (effect: Effect<A>)
        requires
            old(self).waiting() is None,
        ensures
            (Progress {
                agenda: final(self).agenda(),
                info: final(info)@,
                waiting: final(self).waiting(),
                effect,
            }) == stepped(
                turfs@,
                max_x as int,
                max_y as int,
                old(self).agenda(),
                old(info)@,
            ),
    {
        proof {
            use_type_invariant(&*self);
        }
        let mut agenda: Vec<Task<A>> = Vec::new();
        std::mem::swap(&mut agenda, &mut self.agenda);
        let task: Task<A> = match agenda.pop() {
            None => {
                self.agenda = agenda;
                return Effect::Finished;
            },
            Some(task) => task,
        };
        let mut effect: Effect<A> = Effect::Nothing;
        match task {
            Task::Visit { turf } => {
                if let Some(mut books) = info.get(turf.0) {
                    let transfers = books.transfer_dirs;
                    let z: A = A::zero();
                    books.transfer_dirs = [z, z, z, z, z, z, z];
                    proof {
                        assert(books@ =~= nulled(info@[turf.0]));
                    }
                    info.insert(turf.0, books);
                    push_errands(&mut agenda, turf, &transfers);
                }
            },
            Task::Check { turf, .. } => {
                self.waiting = Some(task);
                effect = Effect::ReadMoles { mix: turf.1.mix };
            },
            Task::Vent { mix, amount } => {
                effect = Effect::Add { mix, amount: amount.negate() };
            },
            Task::Draw { planet, .. } => {
                self.waiting = Some(task);
                effect = Effect::ReadPlanet { planet };
            },
            Task::Flow { turf, dir, amount } => {
                let loc: TurfID = adjacent_tile_id(dir, turf.0, max_x, max_y);
                if let Some(mut books) = info.get(loc) {
                    if let Some(mixture) = turfs.get(loc) {
                        let opp: usize = opposite_dir(dir as usize);
                        books.transfer_dirs[opp] = A::zero();
                        info.insert(loc, books);
                        if turf.1.mix != mixture.mix {
                            agenda.push(Task::Blow { from: turf.0, to: loc, amount });
                            effect = Effect::Share { from: turf.1.mix, to: mixture.mix, amount };
                        } else {
                            effect = Effect::Consider { turf: turf.0, other: loc, amount };
                        }
                    }
                }
            },
            Task::Blow { from, to, amount } => {
                effect = Effect::Consider { turf: from, other: to, amount };
            },
        }
        self.agenda = agenda;
        effect
    }

    /// Answers how much gas is in the air that was asked for. If it is not
    /// enough, the neighbours that gas is to come from are visited first.
    pub fn tell_moles(&mut self, moles: A, turfs: &Zone, max_x: i32, max_y: i32)
        requires
            old(self).waiting() matches Some(Task::Check { .. }),
        ensures
            final(self).waiting() is None,
            old(self).waiting() matches Some(Task::Check { turf, sources, amount })
                && final(self).agenda() == checked(
                turfs@,
                max_x as int,
                max_y as int,
                old(self).agenda(),
                turf.0,
                sources,
                amount,
                moles,
            ),
    {
        proof {
            use_type_invariant(&*self);
        }
        if let Some(Task::Check { turf, sources, amount }) = self.waiting {
            if moles.lt(amount) {
                let mut agenda: Vec<Task<A>> = Vec::new();
                std::mem::swap(&mut agenda, &mut self.agenda);
                finalize_eq_neighbors(&mut agenda, turfs, max_x, max_y, turf.0, sources);
                self.agenda = agenda;
            }
        }
        self.waiting = None;
    }

    /// Answers how much gas the atmosphere that was asked for holds, where
    /// that is known.
    pub fn tell_planet(&mut self, sum: Option<A>) -> (effect: Effect<A>)
        requires
            old(self).waiting() matches Some(Task::Draw { .. }),
        ensures
            final(self).waiting() is None,
            final(self).agenda() == old(self).agenda(),
            old(self).waiting() matches Some(Task::Draw { mix, planet, amount })
                && effect == drawn(mix, planet, amount, sum),
    {
        proof {
            use_type_invariant(&*self);
        }
        let mut effect: Effect<A> = Effect::Nothing;
        if let Some(Task::Draw { mix, planet, amount }) = self.waiting {
            if let Some(total) = sum {
                if is_above_zero(total) {
                    effect = Effect::Merge { mix, planet, amount: amount.negate(), total };
                }
            }
        }
        self.waiting = None;
        effect
    }
}

/// The directions from which gas is to come in.
fn find_sources<A: Amount>(transfers: &[A; 7], adjacency: u8) -> (sources: u8)
    ensures
        sources == source_bits(transfers@, adjacency, 6),
{
    let mut sources: u8 = 0;
    let mut dir: u8 = 0;
    while dir < 6
        invariant
            dir <= 6,
            sources == source_bits(transfers@, adjacency, dir as int),
        decreases 6 - dir,
    {
        if has_dir(adjacency, dir) && is_below_zero(transfers[dir as usize]) {
            sources = sources | (1u8 << dir);
        }
        dir = dir + 1;
    }
    sources
}

/// Puts on the agenda all that the books of a turf ask for.
fn push_errands<A: Amount>(agenda: &mut Vec<Task<A>>, turf: MixWithID, transfers: &[A; 7])
    requires
        agenda_wf(old(agenda)@),
    ensures
        final(agenda)@ == old(agenda)@ + errands(turf, transfers@),
        agenda_wf(final(agenda)@),
{
    let ghost before = agenda@;
    let sources: u8 = find_sources(transfers, turf.1.adjacency);
    let mut dir: u8 = 6;
    assert(agenda@ =~= before + flows(turf, transfers@, sources, 6));
    while dir > 0
        invariant
            dir <= 6,
            agenda@ == before + flows(turf, transfers@, sources, dir as int),
            agenda_wf(agenda@),
        decreases dir,
    {
        dir = dir - 1;
        let amount: A = transfers[dir as usize];
        if has_dir(turf.1.adjacency, dir) && is_above_zero(amount) {
            agenda.push(Task::Flow { turf, dir, amount });
            agenda.push(Task::Check { turf, sources, amount });
        }
        assert(agenda@ =~= before + flows(turf, transfers@, sources, dir as int));
    }
    let amount: A = transfers[6];
    if is_above_zero(amount) {
        agenda.push(Task::Vent { mix: turf.1.mix, amount });
        agenda.push(Task::Check { turf, sources, amount });
    } else if is_below_zero(amount) {
        if let Some(planet) = turf.1.planetary_atmos {
            agenda.push(Task::Draw { mix: turf.1.mix, planet, amount });
        }
    }
    assert(agenda@ =~= before + errands(turf, transfers@));
}

/// Puts on the agenda visits to the neighbours of turf `i` that gas is to come
/// from, as far as they belong to the zone.
pub fn finalize_eq_neighbors<A: Amount>(
    agenda: &mut Vec<Task<A>>,
    turfs: &Zone,
    max_x: i32,
    max_y: i32,
    i: TurfID,
    sources: u8,
)
    requires
        agenda_wf(old(agenda)@),
    ensures
        final(agenda)@ == old(agenda)@ + visits::<A>(
            turfs@,
            max_x as int,
            max_y as int,
            i,
            sources,
            0,
        ),
        agenda_wf(final(agenda)@),
{
    let ghost before = agenda@;
    let mut dir: u8 = 6;
    assert(agenda@ =~= before + visits::<A>(turfs@, max_x as int, max_y as int, i, sources, 6));
    while dir > 0
        invariant
            dir <= 6,
            agenda@ == before + visits::<A>(
                turfs@,
                max_x as int,
                max_y as int,
                i,
                sources,
                dir as int,
            ),
            agenda_wf(agenda@),
        decreases dir,
    {
        dir = dir - 1;
        if has_dir(sources, dir) {
            let loc: TurfID = adjacent_tile_id(dir, i, max_x, max_y);
            if let Some(mixture) = turfs.get(loc) {
                agenda.push(Task::Visit { turf: (loc, mixture) });
            }
        }
        assert(agenda@ =~= before + visits::<A>(
            turfs@,
            max_x as int,
            max_y as int,
            i,
            sources,
            dir as int,
        ));
    }
}

} // verus!
