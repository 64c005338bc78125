//! What is written down, and what it is read back as.
use vstd::prelude::*;
use crate::amount::Amount;
use crate::grid::TurfID;
use crate::info::{Ledger, ReducedInfo};
use crate::tables::{
    distinct, entry_of, holds, lemma_put, place, put, reduced_of, MixWithID, TurfMixture,
};

verus! {

/// To book an amount as leaving or as coming in changes what is booked in that direction, by that
/// amount, and nothing else.
pub proof fn bookings_touch_one_direction<A: Amount>(books: Ledger<A>, dir: int, amount: A)
    requires
        books.wf(),
        0 <= dir <= 6,
    ensures
        ({
            let sent = books.sends(dir, amount);
            let got = books.receives(dir, amount);
            &&& sent.transfers.len() == 7 && got.transfers.len() == 7
            &&& sent.transfers[dir] == books.transfers[dir].spec_plus(amount)
            &&& got.transfers[dir] == books.transfers[dir].spec_minus(amount)
            &&& forall|d: int|
                0 <= d < 7 && d != dir ==> #[trigger] sent.transfers[d] == books.transfers[d]
            &&& forall|d: int|
                0 <= d < 7 && d != dir ==> #[trigger] got.transfers[d] == books.transfers[d]
            &&& sent == (Ledger { transfers: sent.transfers, ..books })
            &&& got == (Ledger { transfers: got.transfers, ..books })
        }),
{
}

/// Blank books show no surplus, have nothing booked in any direction and nothing to be passed on,
/// and their turf has had no turn.
pub proof fn blank_books_are_blank<A: Amount>(info: Map<TurfID, ReducedInfo<A>>, i: TurfID)
    ensures
        ({
            let blank = Ledger::<A>::blank();
            &&& blank.transfers.len() == 7
            &&& forall|d: int| 0 <= d < 7 ==> #[trigger] blank.transfers[d] == A::spec_zero()
            &&& blank.mole_delta == A::spec_zero()
            &&& blank.curr_transfer_amount == A::spec_zero()
            &&& blank.curr_transfer_dir == 6
            &&& !blank.fast_done
        }),
        info.contains_key(i) ==> reduced_of(info, i) == info[i],
        !info.contains_key(i) ==> reduced_of(info, i).curr_transfer_amount == A::spec_zero()
            && reduced_of(info, i).curr_transfer_dir == 6,
{
}

/// A table says of each turf what was put there last, whatever was put there for others, and
/// nothing of a turf for which nothing was put. Turfs stay where they came.
pub proof fn tables_say_what_was_put(
    entries: Seq<MixWithID>,
    i: TurfID,
    mixture: TurfMixture,
    k: TurfID,
    p: int,
)
    requires
        distinct(entries),
    ensures
        ({
            let after = put(entries, i, mixture);
            &&& entry_of(Seq::empty(), k) is None
            &&& entry_of(after, i) == Some(mixture)
            &&& k != i ==> entry_of(after, k) == entry_of(entries, k)
            &&& 0 <= p < entries.len() ==> entry_of(entries, entries[p].0) == Some(entries[p].1)
            &&& entry_of(entries, k) is Some <==> exists|q: int|
                0 <= q < entries.len() && (#[trigger] entries[q]).0 == k
            &&& 0 <= p < entries.len() ==> after[p].0 == entries[p].0
            &&& after.len() == entries.len() + if holds(entries, i) {
                0int
            } else {
                1
            }
            &&& !holds(entries, i) ==> after.last() == (i, mixture)
        }),
{
    lemma_put(entries, i, mixture);
    assert(!holds(Seq::empty(), k));
    if 0 <= p < entries.len() {
        assert(holds(entries, entries[p].0));
        let q = place(entries, entries[p].0);
        assert(entries[q].0 == entries[p].0);
        if q < p {
            assert(entries[q].0 != entries[p].0);
        } else if p < q {
            assert(entries[p].0 != entries[q].0);
        }
    }
}

} // verus!
