//! What is kept while gas is booked from turf to turf, if amounts are exact.
use vstd::prelude::*;
use crate::amount::{adds_up, alike, exact, opposed, signed, signs_agree, Amount};
use crate::grid::{adjacent, opposite, opposite_step_returns, TurfID};
use crate::info::Ledger;

verus! {

/// The laws of a commutative group, for three amounts.
pub proof fn lemma_group<A: Amount>(a: A, b: A, c: A)
    requires
        exact::<A>(),
    ensures
        a.spec_plus(b) == b.spec_plus(a),
        a.spec_plus(b).spec_plus(c) == a.spec_plus(b.spec_plus(c)),
        a.spec_plus(A::spec_zero()) == a,
        a.spec_plus(a.spec_negate()) == A::spec_zero(),
        a.spec_minus(b) == a.spec_plus(b.spec_negate()),
        a.spec_same(b) == (a == b),
{
    assert(adds_up(a, b, c));
}

/// `(a + x) + b == (a + b) + x`.
pub proof fn lemma_plus_first<A: Amount>(a: A, b: A, x: A)
    requires
        exact::<A>(),
    ensures
        a.spec_plus(x).spec_plus(b) == a.spec_plus(b).spec_plus(x),
{
    lemma_group(a, x, b);
    lemma_group(a, b, x);
    lemma_group(x, b, a);
}

/// `(a - x) + b == (a + b) - x`.
pub proof fn lemma_minus_first<A: Amount>(a: A, b: A, x: A)
    requires
        exact::<A>(),
    ensures
        a.spec_minus(x).spec_plus(b) == a.spec_plus(b).spec_minus(x),
{
    lemma_group(a, x, b);
    lemma_group(a.spec_plus(b), x, b);
    lemma_plus_first(a, b, x.spec_negate());
}

/// `a + (b + x) == (a + b) + x` and `a + (b - x) == (a + b) - x`.
pub proof fn lemma_second<A: Amount>(a: A, b: A, x: A)
    requires
        exact::<A>(),
    ensures
        a.spec_plus(b.spec_plus(x)) == a.spec_plus(b).spec_plus(x),
        a.spec_plus(b.spec_minus(x)) == a.spec_plus(b).spec_minus(x),
{
    lemma_group(a, b, x);
    lemma_group(b, x, a);
    lemma_group(a, b, x.spec_negate());
    lemma_group(a.spec_plus(b), x, a);
}

/// `(a + x) - x == a` and `(a - x) + x == a`.
pub proof fn lemma_undo<A: Amount>(a: A, x: A)
    requires
        exact::<A>(),
    ensures
        a.spec_plus(x).spec_minus(x) == a,
        a.spec_minus(x).spec_plus(x) == a,
{
    lemma_group(a.spec_plus(x), x, a);
    lemma_group(a, x, x.spec_negate());
    lemma_group(x, x, a);
    lemma_group(a, x.spec_negate(), x);
    lemma_group(x.spec_negate(), x, a);
}

/// The sum of amounts.
pub open spec fn sum<A: Amount>(amounts: Seq<A>) -> A
    decreases amounts.len(),
{
    if amounts.len() == 0 {
        A::spec_zero()
    } else {
        sum(amounts.drop_last()).spec_plus(amounts.last())
    }
}

/// Adding to one amount adds to the sum.
pub proof fn lemma_sum_plus<A: Amount>(amounts: Seq<A>, p: int, x: A)
    requires
        exact::<A>(),
        0 <= p < amounts.len(),
    ensures
        sum(amounts.update(p, amounts[p].spec_plus(x))) == sum(amounts).spec_plus(x),
    decreases amounts.len(),
{
    let after = amounts.update(p, amounts[p].spec_plus(x));
    let front = amounts.drop_last();
    if p == amounts.len() - 1 {
        assert(after.drop_last() =~= front);
        lemma_second(sum(front), amounts.last(), x);
    } else {
        assert(after.drop_last() =~= front.update(p, front[p].spec_plus(x)));
        lemma_sum_plus(front, p, x);
        lemma_plus_first(sum(front), amounts.last(), x);
    }
}

/// Taking from one amount takes from the sum.
pub proof fn lemma_sum_minus<A: Amount>(amounts: Seq<A>, p: int, x: A)
    requires
        exact::<A>(),
        0 <= p < amounts.len(),
    ensures
        sum(amounts.update(p, amounts[p].spec_minus(x))) == sum(amounts).spec_minus(x),
{
    lemma_group(amounts[p], x, x);
    lemma_group(sum(amounts), x, x);
    lemma_sum_plus(amounts, p, x.spec_negate());
}

/// The sum of nothing but zeros is zero.
pub proof fn lemma_sum_zero<A: Amount>(amounts: Seq<A>)
    requires
        exact::<A>(),
        forall|p: int| 0 <= p < amounts.len() ==> amounts[p] == A::spec_zero(),
    ensures
        sum(amounts) == A::spec_zero(),
    decreases amounts.len(),
{
    if amounts.len() > 0 {
        lemma_sum_zero(amounts.drop_last());
        lemma_group(A::spec_zero(), A::spec_zero(), A::spec_zero());
    }
}

/// What a turf is above its due, counting what is booked to leave it.
pub open spec fn holdings<A: Amount>(books: Ledger<A>) -> A {
    books.mole_delta.spec_plus(sum(books.transfers))
}

/// What booking a transfer does to the holdings of the two turfs.
pub proof fn lemma_holdings<A: Amount>(books: Ledger<A>, dir: int, x: A)
    requires
        exact::<A>(),
        books.wf(),
        0 <= dir <= 6,
    ensures
        holdings(books.sends(dir, x)) == holdings(books).spec_plus(x),
        holdings(books.receives(dir, x)) == holdings(books).spec_minus(x),
        holdings(Ledger { mole_delta: books.mole_delta.spec_minus(x), ..books.sends(dir, x) })
            == holdings(books),
        holdings(Ledger { mole_delta: books.mole_delta.spec_plus(x), ..books.receives(dir, x) })
            == holdings(books),
{
    let d = books.mole_delta;
    let s = sum(books.transfers);
    lemma_sum_plus(books.transfers, dir, x);
    lemma_sum_minus(books.transfers, dir, x);
    lemma_second(d, s, x);
    lemma_second(d.spec_minus(x), s, x);
    lemma_minus_first(d, s, x);
    lemma_undo(d.spec_plus(s), x);
    lemma_second(d.spec_plus(x), s, x);
    lemma_plus_first(d, s, x);
}

/// What is booked to leave turf `i` in direction `dir`: nothing if it has no books.
pub open spec fn outflow<A: Amount>(info: Map<TurfID, Ledger<A>>, i: TurfID, dir: int) -> A {
    if info.contains_key(i) {
        info[i].transfers[dir]
    } else {
        A::spec_zero()
    }
}

/// What leaves turf `i` in direction `dir` is what comes in on the other side.
pub open spec fn flow_in_step<A: Amount>(
    info: Map<TurfID, Ledger<A>>,
    i: TurfID,
    dir: int,
    max_x: int,
    max_y: int,
) -> bool {
    opposed(
        outflow(info, i, dir),
        outflow(info, adjacent(dir, i, max_x, max_y), opposite(dir)),
    )
}

/// All books are in step: what leaves a turf in a direction is what comes in
/// on the other side, and nothing leaves for a turf without books.
pub open spec fn in_step<A: Amount>(
    info: Map<TurfID, Ledger<A>>,
    max_x: int,
    max_y: int,
) -> bool {
    forall|i: TurfID, dir: int|
        0 <= dir < 6 ==> #[trigger] flow_in_step(info, i, dir, max_x, max_y)
}

/// All pairs of books are in step: of two turfs next to each other that both have
/// books, what leaves the one for the other is what comes in there.
pub open spec fn paired<A: Amount>(
    info: Map<TurfID, Ledger<A>>,
    max_x: int,
    max_y: int,
) -> bool {
    forall|i: TurfID, dir: int|
        0 <= dir < 6 && info.contains_key(i) && info.contains_key(adjacent(dir, i, max_x, max_y))
            ==> #[trigger] flow_in_step(info, i, dir, max_x, max_y)
}

/// Books that were in step are in step, and pairs of books that were.
pub open spec fn stays_in_step<A: Amount>(
    before: Map<TurfID, Ledger<A>>,
    after: Map<TurfID, Ledger<A>>,
    max_x: int,
    max_y: int,
) -> bool {
    &&& in_step(before, max_x, max_y) ==> in_step(after, max_x, max_y)
    &&& paired(before, max_x, max_y) ==> paired(after, max_x, max_y)
}

/// What is booked to leave for the planet is the same for every turf.
pub open spec fn sixth_kept<A: Amount>(
    before: Map<TurfID, Ledger<A>>,
    after: Map<TurfID, Ledger<A>>,
) -> bool {
    &&& before.dom() == after.dom()
    &&& forall|k: TurfID| #[trigger]
        before.contains_key(k) ==> after[k].transfers[6] == before[k].transfers[6]
}

/// The transfers of two sets of books agree.
pub open spec fn same_transfers<A: Amount>(
    a: Map<TurfID, Ledger<A>>,
    b: Map<TurfID, Ledger<A>>,
) -> bool {
    &&& a.dom() == b.dom()
    &&& forall|i: TurfID| #[trigger] a.contains_key(i) ==> a[i].transfers == b[i].transfers
}

/// Being in step is a matter of the transfers alone.
pub proof fn lemma_same_in_step<A: Amount>(
    a: Map<TurfID, Ledger<A>>,
    b: Map<TurfID, Ledger<A>>,
    max_x: int,
    max_y: int,
)
    requires
        same_transfers(a, b),
    ensures
        stays_in_step(a, b, max_x, max_y),
        sixth_kept(a, b),
{
    assert forall|i: TurfID, dir: int| 0 <= dir < 6 implies #[trigger] outflow(b, i, dir)
        == outflow(a, i, dir) by {
        assert(a.contains_key(i) == b.contains_key(i));
    }
    lemma_same_outflow(a, b, max_x, max_y);
}

/// Being in step is a matter of what leaves in the six directions.
pub proof fn lemma_same_outflow<A: Amount>(
    a: Map<TurfID, Ledger<A>>,
    b: Map<TurfID, Ledger<A>>,
    max_x: int,
    max_y: int,
)
    requires
        a.dom() == b.dom(),
        forall|i: TurfID, dir: int|
            0 <= dir < 6 ==> #[trigger] outflow(b, i, dir) == outflow(a, i, dir),
    ensures
        stays_in_step(a, b, max_x, max_y),
{
    assert forall|i: TurfID, dir: int| 0 <= dir < 6 implies #[trigger] flow_in_step(
        b,
        i,
        dir,
        max_x,
        max_y,
    ) == flow_in_step(a, i, dir, max_x, max_y) by {
        let loc = adjacent(dir, i, max_x, max_y);
        assert(outflow(b, i, dir) == outflow(a, i, dir));
        assert(outflow(b, loc, opposite(dir)) == outflow(a, loc, opposite(dir)));
    }
    if paired(a, max_x, max_y) {
        assert forall|i: TurfID, dir: int|
            0 <= dir < 6 && b.contains_key(i) && b.contains_key(
                adjacent(dir, i, max_x, max_y),
            ) implies #[trigger] flow_in_step(b, i, dir, max_x, max_y) by {
            assert(a.contains_key(i) && a.contains_key(adjacent(dir, i, max_x, max_y)));
            assert(flow_in_step(a, i, dir, max_x, max_y));
        }
    }
    if in_step(a, max_x, max_y) {
        assert forall|i: TurfID, dir: int| 0 <= dir < 6 implies #[trigger] flow_in_step(
            b,
            i,
            dir,
            max_x,
            max_y,
        ) by {
            assert(flow_in_step(a, i, dir, max_x, max_y));
        }
    }
}

/// `after` books that `x` more flows from turf `i` in direction `dir`.
pub open spec fn booked<A: Amount>(
    before: Map<TurfID, Ledger<A>>,
    after: Map<TurfID, Ledger<A>>,
    i: TurfID,
    dir: int,
    x: A,
    max_x: int,
    max_y: int,
) -> bool {
    let loc = adjacent(dir, i, max_x, max_y);
    &&& after.dom() == before.dom()
    &&& before.contains_key(i) && before.contains_key(loc)
    &&& after[i].transfers == before[i].sends(dir, x).transfers
    &&& after[loc].transfers == before[loc].receives(opposite(dir), x).transfers
    &&& forall|k: TurfID| #[trigger]
        before.contains_key(k) && k != i && k != loc ==> after[k].transfers == before[k].transfers
}

/// Booking a flow between two turfs keeps each pair of books in step.
proof fn lemma_booked_pair<A: Amount>(
    before: Map<TurfID, Ledger<A>>,
    after: Map<TurfID, Ledger<A>>,
    i: TurfID,
    dir: int,
    x: A,
    max_x: int,
    max_y: int,
    k: TurfID,
    d: int,
)
    requires
        signed::<A>(),
        0 <= dir < 6,
        booked(before, after, i, dir, x, max_x, max_y),
        i != adjacent(dir, i, max_x, max_y),
        forall|t: TurfID| #[trigger] before.contains_key(t) ==> before[t].wf(),
        0 <= d < 6,
        flow_in_step(before, k, d, max_x, max_y),
    ensures
        flow_in_step(after, k, d, max_x, max_y),
{
    let loc = adjacent(dir, i, max_x, max_y);
    let back = opposite(dir);
    let other = adjacent(d, k, max_x, max_y);
    opposite_step_returns(dir, i, max_x, max_y);
    opposite_step_returns(d, k, max_x, max_y);
    let a = outflow(before, k, d);
    let b = outflow(before, other, opposite(d));
    assert(signs_agree(a, b, x));
    assert(before.contains_key(k) == after.contains_key(k));
    assert(before.contains_key(other) == after.contains_key(other));
    assert(before.contains_key(k) ==> before[k].wf());
    assert(before.contains_key(other) ==> before[other].wf());
    if k == i && d == dir {
        assert(outflow(after, k, d) == a.spec_plus(x));
        assert(outflow(after, other, opposite(d)) == b.spec_minus(x));
    } else if k == loc && d == back {
        assert(other == i);
        assert(outflow(after, k, d) == a.spec_minus(x));
        assert(outflow(after, other, opposite(d)) == b.spec_plus(x));
    } else {
        assert(outflow(after, k, d) == a);
        assert(!(other == i && opposite(d) == dir));
        assert(!(other == loc && opposite(d) == back));
        assert(outflow(after, other, opposite(d)) == b);
    }
}

/// Booking a flow between two turfs keeps all books in step.
pub proof fn lemma_booked_in_step<A: Amount>(
    before: Map<TurfID, Ledger<A>>,
    after: Map<TurfID, Ledger<A>>,
    i: TurfID,
    dir: int,
    x: A,
    max_x: int,
    max_y: int,
)
    requires
        0 <= dir < 6,
        booked(before, after, i, dir, x, max_x, max_y),
        i != adjacent(dir, i, max_x, max_y),
        forall|k: TurfID| #[trigger] before.contains_key(k) ==> before[k].wf(),
    ensures
        signed::<A>() ==> stays_in_step(before, after, max_x, max_y),
        sixth_kept(before, after),
{
    if signed::<A>() && in_step(before, max_x, max_y) {
        assert forall|k: TurfID, d: int| 0 <= d < 6 implies #[trigger] flow_in_step(
            after,
            k,
            d,
            max_x,
            max_y,
        ) by {
            assert(flow_in_step(before, k, d, max_x, max_y));
            lemma_booked_pair(before, after, i, dir, x, max_x, max_y, k, d);
        }
    }
    if signed::<A>() && paired(before, max_x, max_y) {
        assert forall|k: TurfID, d: int|
            0 <= d < 6 && after.contains_key(k) && after.contains_key(
                adjacent(d, k, max_x, max_y),
            ) implies #[trigger] flow_in_step(after, k, d, max_x, max_y) by {
            let other = adjacent(d, k, max_x, max_y);
            assert(before.contains_key(k) && before.contains_key(other));
            assert(flow_in_step(before, k, d, max_x, max_y));
            lemma_booked_pair(before, after, i, dir, x, max_x, max_y, k, d);
        }
    }
    opposite_step_returns(dir, i, max_x, max_y);
    assert forall|k: TurfID| #[trigger] before.contains_key(k) implies after[k].transfers[6]
        == before[k].transfers[6] by {
        assert(before[k].wf());
    }
}

/// Both books say the same, as far as amounts are numbers.
pub open spec fn same_books<A: Amount>(a: Ledger<A>, b: Ledger<A>) -> bool {
    &&& a.transfers.len() == b.transfers.len()
    &&& forall|d: int|
        0 <= d < a.transfers.len() ==> alike(#[trigger] a.transfers[d], b.transfers[d])
    &&& a == (Ledger { transfers: a.transfers, ..b })
}

/// Booking `x` in a direction is the same as booking `-x` back from the other
/// side: both turfs end with the same books.
pub proof fn booking_back<A: Amount>(a: Ledger<A>, b: Ledger<A>, dir: int, x: A)
    requires
        signed::<A>(),
        0 <= dir < 6,
        a.wf(),
        b.wf(),
    ensures
        same_books(a.sends(dir, x), a.receives(opposite(opposite(dir)), x.spec_negate())),
        same_books(b.receives(opposite(dir), x), b.sends(opposite(dir), x.spec_negate())),
        exact::<A>() ==> a.sends(dir, x) == a.receives(opposite(opposite(dir)), x.spec_negate()),
        exact::<A>() ==> b.receives(opposite(dir), x) == b.sends(
            opposite(dir),
            x.spec_negate(),
        ),
{
    let back = opposite(dir);
    let n = x.spec_negate();
    assert(opposite(back) == dir && 0 <= back < 6);
    assert(signs_agree(a.transfers[dir], a.transfers[dir], x));
    assert(signs_agree(b.transfers[back], b.transfers[back], x));
    if exact::<A>() {
        lemma_negate_twice(x);
        lemma_group(a.transfers[dir], n, x);
        lemma_group(b.transfers[back], x, x);
    }
}

/// Exact amounts are opposed if they are each other's negative.
pub proof fn lemma_opposed<A: Amount>(a: A, b: A)
    requires
        exact::<A>(),
    ensures
        opposed(a, b) == (a == b.spec_negate()),
{
    lemma_group(a, a, a);
    lemma_group(b, b, b);
    lemma_group(a, b.spec_negate(), a);
}

/// The laws of signs hold of exact amounts.
pub proof fn exact_amounts_are_signed<A: Amount>()
    requires
        exact::<A>(),
    ensures
        signed::<A>(),
{
    assert forall|a: A, b: A, x: A| #[trigger] signs_agree(a, b, x) by {
        let z = A::spec_zero();
        let n = x.spec_negate();
        let m = b.spec_negate();
        lemma_negate_twice(x);
        lemma_opposed(z, z);
        lemma_group(z, z.spec_negate(), z);
        lemma_group(z.spec_negate(), z, z);
        lemma_opposed(a, b);
        lemma_opposed(a.spec_plus(x), b.spec_minus(x));
        lemma_opposed(a.spec_minus(x), b.spec_plus(x));
        lemma_negate_sum(b, n);
        lemma_negate_sum(b, x);
        lemma_group(b, x, z);
        lemma_group(a, x, z);
        lemma_group(a, n, z);
        let s = a.spec_plus(x);
        lemma_group(s, s, z);
        let t = a.spec_minus(x);
        lemma_group(t, t, z);
    }
}

/// `-(a + b) == -a + -b`.
pub proof fn lemma_negate_sum<A: Amount>(a: A, b: A)
    requires
        exact::<A>(),
    ensures
        a.spec_plus(b).spec_negate() == a.spec_negate().spec_plus(b.spec_negate()),
{
    let z = A::spec_zero();
    let s = a.spec_plus(b);
    let n = a.spec_negate().spec_plus(b.spec_negate());
    // s + n == 0
    assert(s.spec_plus(n) == z) by {
        lemma_group(a, b, n);
        lemma_group(a.spec_negate(), b.spec_negate(), b);
        lemma_group(b, n, z);
        lemma_group(a.spec_negate(), b.spec_negate().spec_plus(b), z);
        lemma_group(b, b.spec_negate(), z);
        lemma_group(b.spec_negate(), b, z);
        lemma_group(a.spec_negate(), z, z);
        lemma_group(a, z, z);
    }
    // -s == -s + (s + n) == n
    lemma_group(s.spec_negate(), s, n);
    lemma_group(s, s.spec_negate(), z);
    lemma_group(s.spec_negate(), z, z);
    lemma_group(z, n, z);
    lemma_group(n, z, z);
}

/// The negative of the negative is the amount itself.
pub proof fn lemma_negate_twice<A: Amount>(x: A)
    requires
        exact::<A>(),
    ensures
        x.spec_negate().spec_negate() == x,
{
    let z = A::spec_zero();
    let n = x.spec_negate();
    // x == x + (n + --x) == (x + n) + --x == --x
    lemma_group(n, z, z);
    lemma_group(x, n, n.spec_negate());
    lemma_group(x, z, z);
    lemma_group(z, n.spec_negate(), z);
    lemma_group(n.spec_negate(), z, z);
}

} // verus!
