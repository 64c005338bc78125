//! Sums over all books.
use vstd::prelude::*;
use crate::amount::{exact, Amount};
use crate::balance::{lemma_plus_first, lemma_second, lemma_undo, lemma_group};
use crate::grid::TurfID;
use crate::info::Ledger;

verus! {

/// How far turf `i` is above its due: nothing if it has no books.
pub open spec fn delta_at<A: Amount>(info: Map<TurfID, Ledger<A>>, i: TurfID) -> A {
    if info.contains_key(i) {
        info[i].mole_delta
    } else {
        A::spec_zero()
    }
}

/// How far the turfs below `n` are above their due in all.
pub open spec fn total_delta<A: Amount>(info: Map<TurfID, Ledger<A>>, n: nat) -> A
    decreases n,
{
    if n == 0 {
        A::spec_zero()
    } else {
        total_delta(info, (n - 1) as nat).spec_plus(delta_at(info, (n - 1) as u32))
    }
}

/// How far all turfs are above their due in all.
pub open spec fn whole_delta<A: Amount>(info: Map<TurfID, Ledger<A>>) -> A {
    total_delta(info, 0x1_0000_0000)
}

pub proof fn lemma_same_delta<A: Amount>(
    a: Map<TurfID, Ledger<A>>,
    b: Map<TurfID, Ledger<A>>,
    n: nat,
)
    requires
        n <= 0x1_0000_0000,
        forall|k: TurfID| k < n ==> #[trigger] delta_at(a, k) == delta_at(b, k),
    ensures
        total_delta(a, n) == total_delta(b, n),
    decreases n,
{
    if n > 0 {
        lemma_same_delta(a, b, (n - 1) as nat);
        assert(delta_at(a, (n - 1) as u32) == delta_at(b, (n - 1) as u32));
    }
}

/// The total goes with the surplus of one turf.
proof fn lemma_one_delta<A: Amount>(
    a: Map<TurfID, Ledger<A>>,
    b: Map<TurfID, Ledger<A>>,
    n: nat,
    i: TurfID,
    x: A,
)
    requires
        exact::<A>(),
        i < n <= 0x1_0000_0000,
        delta_at(b, i) == delta_at(a, i).spec_plus(x),
        forall|k: TurfID| k != i ==> #[trigger] delta_at(a, k) == delta_at(b, k),
    ensures
        total_delta(b, n) == total_delta(a, n).spec_plus(x),
    decreases n,
{
    let last = (n - 1) as u32;
    let before = total_delta(a, (n - 1) as nat);
    if i == last {
        lemma_same_delta(a, b, (n - 1) as nat);
        lemma_second(before, delta_at(a, i), x);
    } else {
        lemma_one_delta(a, b, (n - 1) as nat, i, x);
        assert(delta_at(a, last) == delta_at(b, last));
        lemma_plus_first(before, delta_at(a, last), x);
    }
}

/// What one turf gains and another loses leaves the total alone.
pub proof fn lemma_moved_delta<A: Amount>(
    a: Map<TurfID, Ledger<A>>,
    b: Map<TurfID, Ledger<A>>,
    i: TurfID,
    j: TurfID,
    x: A,
)
    requires
        exact::<A>(),
        i != j,
        a.contains_key(i),
        a.contains_key(j),
        b.dom() == a.dom(),
        b[i].mole_delta == a[i].mole_delta.spec_plus(x),
        b[j].mole_delta == a[j].mole_delta.spec_minus(x),
        forall|k: TurfID| k != i && k != j ==> #[trigger] delta_at(a, k) == delta_at(b, k),
    ensures
        whole_delta(b) == whole_delta(a),
{
    let m = a.insert(i, b[i]);
    assert(b.contains_key(i) && b.contains_key(j));
    assert forall|k: TurfID| k != i implies #[trigger] delta_at(a, k) == delta_at(m, k) by {}
    lemma_one_delta(a, m, 0x1_0000_0000, i, x);
    assert forall|k: TurfID| k != j implies #[trigger] delta_at(m, k) == delta_at(b, k) by {
        if k != i {
            assert(delta_at(a, k) == delta_at(b, k));
        }
    }
    lemma_group(a[j].mole_delta, x, x);
    lemma_one_delta(m, b, 0x1_0000_0000, j, x.spec_negate());
    lemma_group(whole_delta(m), x, x);
    lemma_undo(whole_delta(a), x);
}

} // verus!
