//! The books that the solver keeps of each turf.
use vstd::prelude::*;
use crate::amount::Amount;
use crate::grid::{opposite, opposite_dir};

verus! {

/// What is written down of one turf while its zone is equalized.
pub struct MonstermosInfo<A: Amount> {
    /// What is to leave the turf in each direction; 6 is the planet.
    pub transfer_dirs: [A; 7],
    /// How far the turf is above what it should hold.
    pub mole_delta: A,
    /// What is to be passed on in `curr_transfer_dir`.
    pub curr_transfer_amount: A,
    /// The direction from which the turf was reached; 6 for none.
    pub curr_transfer_dir: usize,
    /// Whether the turf has had its turn in the first, quick round.
    pub fast_done: bool,
}

impl<A: Amount> Clone for MonstermosInfo<A> {
    fn clone(&self) -> (info: Self)
        ensures
            info == *self,
    {
        *self
    }
}

impl<A: Amount> Copy for MonstermosInfo<A> {

}

/// The value of a [`MonstermosInfo`].
#[verifier::ext_equal]
pub struct Ledger<A> {
    pub transfers: Seq<A>,
    pub mole_delta: A,
    pub curr_transfer_amount: A,
    pub curr_transfer_dir: int,
    pub fast_done: bool,
}

impl<A: Amount> Ledger<A> {
    /// The ledger of a turf of which nothing is known yet.
    pub open spec fn blank() -> Self {
        Ledger {
            transfers: Seq::new(7, |d: int| A::spec_zero()),
            mole_delta: A::spec_zero(),
            curr_transfer_amount: A::spec_zero(),
            curr_transfer_dir: 6,
            fast_done: false,
        }
    }

    pub open spec fn wf(self) -> bool {
        &&& self.transfers.len() == 7
        &&& 0 <= self.curr_transfer_dir <= 6
    }

    /// `amount` more is to leave in direction `dir`.
    pub open spec fn sends(self, dir: int, amount: A) -> Self {
        Ledger {
            transfers: self.transfers.update(dir, self.transfers[dir].spec_plus(amount)),
            ..self
        }
    }

    /// `amount` more is to come in from direction `dir`.
    pub open spec fn receives(self, dir: int, amount: A) -> Self {
        Ledger {
            transfers: self.transfers.update(dir, self.transfers[dir].spec_minus(amount)),
            ..self
        }
    }
}

impl<A: Amount> View for MonstermosInfo<A> {
    type V = Ledger<A>;

    open spec fn view(&self) -> Ledger<A> {
        Ledger {
            transfers: self.transfer_dirs@,
            mole_delta: self.mole_delta,
            curr_transfer_amount: self.curr_transfer_amount,
            curr_transfer_dir: self.curr_transfer_dir as int,
            fast_done: self.fast_done,
        }
    }
}

impl<A: Amount> Default for MonstermosInfo<A> {
    fn default() -> (info: Self)
        ensures
            info@ == Ledger::<A>::blank(),
    {
        let z: A = A::zero();
        MonstermosInfo {
            transfer_dirs: [z, z, z, z, z, z, z],
            mole_delta: z,
            curr_transfer_amount: z,
            curr_transfer_dir: 6,
            fast_done: false,
        }
    }
}

impl<A: Amount> MonstermosInfo<A> {
    /// Books `amount` as leaving in direction `dir_index`, and as coming in on
    /// the other side, where there is one.
    pub fn adjust_eq_movement(&mut self, adjacent: Option<&mut Self>, dir_index: usize, amount: A)
        requires
            dir_index <= 6,
        ensures
            final(self)@ == old(self)@.sends(dir_index as int, amount),
            match adjacent {
                Some(adj) => final(adj)@ == if dir_index == 6 {
                    adj@
                } else {
                    adj@.receives(opposite(dir_index as int), amount)
                },
                None => true,
            },
    {
        self.transfer_dirs[dir_index] = self.transfer_dirs[dir_index].plus(amount);
        if let Some(adj) = adjacent {
            if dir_index != 6 {
                let opp: usize = opposite_dir(dir_index);
                adj.transfer_dirs[opp] = adj.transfer_dirs[opp].minus(amount);
            }
        }
    }
}

/// What is written down of one turf while a zone loses its air to space.
pub struct ReducedInfo<A: Amount> {
    pub curr_transfer_amount: A,
    pub curr_transfer_dir: usize,
}

impl<A: Amount> Clone for ReducedInfo<A> {
    fn clone(&self) -> (info: Self)
        ensures
            info == *self,
    {
        *self
    }
}

impl<A: Amount> Copy for ReducedInfo<A> {

}

impl<A: Amount> Default for ReducedInfo<A> {
    fn default() -> (info: Self)
        ensures
            info.curr_transfer_amount == A::spec_zero(),
            info.curr_transfer_dir == 6,
    {
        ReducedInfo { curr_transfer_amount: A::zero(), curr_transfer_dir: 6 }
    }
}

} // verus!
