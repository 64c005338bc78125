//! Giving and taking are mirror images of each other.
use vstd::prelude::*;
use crate::amount::{is_number, Amount};
use crate::balance::{lemma_group, lemma_negate_sum, lemma_negate_twice};
use crate::grid::{adjacent, lemma_neighbours, neighbours, opposite, TurfID};
use crate::info::Ledger;
use crate::laws::level::{above, representable};
use crate::quanta::{quanta_are_exact, Quanta};
use crate::settle::{
    explore, look, look_around, matched, matches_side, outweighs, pass_all_on, pass_on, passable,
    reached, satisfied, search_from, settled, Search, Side,
};
use crate::tables::{books_wf, holds, MixWithID};

verus! {

/// The books with all amounts negated.
pub open spec fn negated<A: Amount>(books: Ledger<A>) -> Ledger<A> {
    Ledger {
        transfers: books.transfers.map_values(|a: A| a.spec_negate()),
        mole_delta: books.mole_delta.spec_negate(),
        curr_transfer_amount: books.curr_transfer_amount.spec_negate(),
        ..books
    }
}

/// All books with all amounts negated.
pub open spec fn all_negated<A: Amount>(info: Map<TurfID, Ledger<A>>) -> Map<TurfID, Ledger<A>> {
    Map::new(|i: TurfID| info.contains_key(i), |i: TurfID| negated(info[i]))
}

/// `b` is what is seen of `a` in the mirror: its negative, or no number if `a` is
/// none.
pub open spec fn faces<A: Amount>(a: A, b: A) -> bool {
    &&& is_number(a) == is_number(b)
    &&& is_number(a) ==> b.spec_same(a.spec_negate())
}

/// In the mirror, sums are mirrored sums, and the order is turned around. This
/// holds of amounts in floating point, too, though sums are rounded there, zero
/// has two signs, and some sums are no numbers.
pub open spec fn reflects<A: Amount>(a: A, b: A, x: A, y: A) -> bool {
    &&& faces(A::spec_zero(), A::spec_zero())
    &&& faces(a, a.spec_negate())
    &&& faces(a, b) && faces(x, y) ==> {
        &&& faces(a.spec_plus(x), b.spec_plus(y))
        &&& faces(a.spec_minus(x), b.spec_minus(y))
        &&& a.spec_negate().spec_lt(x) == b.spec_lt(y.spec_negate())
    }
    &&& faces(a, b) ==> {
        &&& a.spec_same(A::spec_zero()) == b.spec_same(A::spec_zero())
        &&& A::spec_zero().spec_lt(a) == b.spec_lt(A::spec_zero())
        &&& A::spec_zero().spec_le(a) == b.spec_le(A::spec_zero())
    }
}

/// All amounts are reflected.
pub open spec fn mirrored<A: Amount>() -> bool {
    forall|a: A, b: A, x: A, y: A| #[trigger] reflects(a, b, x, y)
}

/// A mirror: which amount is seen of which, and of which amounts the order is
/// turned around.
#[verifier::reject_recursive_types(A)]
struct Mirror<A: Amount> {
    seen: spec_fn(A, A) -> bool,
    keeps: spec_fn(A) -> bool,
}

impl<A: Amount> Mirror<A> {
    /// What a mirror shows of two amounts `a` and `x`.
    spec fn shows(self, a: A, b: A, x: A, y: A) -> bool {
        (self.seen)(a, b) && (self.seen)(x, y) ==> {
            &&& (self.seen)(a.spec_plus(x), b.spec_plus(y))
            &&& (self.seen)(a.spec_minus(x), b.spec_minus(y))
            &&& a.spec_same(A::spec_zero()) == b.spec_same(A::spec_zero())
            &&& (self.keeps)(a) ==> {
                &&& A::spec_zero().spec_lt(a) == b.spec_lt(A::spec_zero())
                &&& A::spec_zero().spec_le(a) == b.spec_le(A::spec_zero())
            }
            &&& (self.keeps)(a) && (self.keeps)(x) ==> a.spec_negate().spec_lt(x) == b.spec_lt(
                y.spec_negate(),
            )
        }
    }

    /// A match of amounts that are kept leaves such amounts.
    spec fn closed_under_match(self, found: A, own: A) -> bool {
        (self.keeps)(found) && (self.keeps)(own) && !satisfied(Side::Taker, own) && matches_side(
            Side::Taker,
            found,
        ) ==> if outweighs(Side::Taker, found, own) {
            (self.keeps)(found.spec_plus(own))
        } else {
            (self.keeps)(own.spec_plus(found))
        }
    }

    spec fn wf(self) -> bool {
        &&& (self.seen)(A::spec_zero(), A::spec_zero())
        &&& (self.keeps)(A::spec_zero())
        &&& forall|a: A, b: A, x: A, y: A| #[trigger] self.shows(a, b, x, y)
        &&& forall|found: A, own: A| #[trigger] self.closed_under_match(found, own)
    }

    /// The books `b` are what is seen of the books `a`.
    spec fn books(self, a: Ledger<A>, b: Ledger<A>) -> bool {
        &&& a.transfers.len() == 7 && b.transfers.len() == 7
        &&& forall|d: int|
            #![trigger a.transfers[d]]
            #![trigger b.transfers[d]]
            0 <= d < 7 ==> (self.seen)(a.transfers[d], b.transfers[d])
        &&& (self.seen)(a.mole_delta, b.mole_delta)
        &&& (self.seen)(a.curr_transfer_amount, b.curr_transfer_amount)
        &&& a.curr_transfer_dir == b.curr_transfer_dir
        &&& a.fast_done == b.fast_done
        &&& (self.keeps)(a.mole_delta)
        &&& 0 <= a.curr_transfer_dir <= 6
    }

    /// All books `b` are what is seen of the books `a`.
    spec fn info(self, a: Map<TurfID, Ledger<A>>, b: Map<TurfID, Ledger<A>>) -> bool {
        &&& a.dom() == b.dom()
        &&& forall|k: TurfID| #[trigger] a.contains_key(k) ==> self.books(a[k], b[k])
    }

    /// The search `b` is what is seen of the search `a`.
    spec fn search(self, a: Search<A>, b: Search<A>) -> bool {
        &&& self.info(a.info, b.info)
        &&& a.queue == b.queue
        &&& self.books(a.own, b.own)
    }
}

proof fn lemma_matched<A: Amount>(
    m: Mirror<A>,
    found: Ledger<A>,
    there: Ledger<A>,
    own: A,
    other: A,
)
    requires
        m.wf(),
        m.books(found, there),
        (m.seen)(own, other),
        (m.keeps)(own),
        !satisfied(Side::Taker, own),
    ensures
        ({
            let (after, left) = matched(Side::Taker, found, own);
            let (mirror, rest) = matched(Side::Giver, there, other);
            &&& m.books(after, mirror)
            &&& (m.seen)(left, rest)
            &&& (m.keeps)(left)
        }),
{
    let d = found.mole_delta;
    let e = there.mole_delta;
    assert(m.shows(d, e, own, other));
    assert(m.shows(own, other, d, e));
    assert(m.shows(found.curr_transfer_amount, there.curr_transfer_amount, own, other));
    assert(m.shows(found.curr_transfer_amount, there.curr_transfer_amount, d, e));
    assert(m.closed_under_match(d, own));
}

proof fn lemma_look<A: Amount>(
    m: Mirror<A>,
    turfs: Seq<MixWithID>,
    root: TurfID,
    search: Search<A>,
    other: Search<A>,
    step: (u8, TurfID),
)
    requires
        m.wf(),
        m.search(search, other),
        !satisfied(Side::Taker, search.own.mole_delta),
        step.0 < 6,
    ensures
        m.search(
            look(Side::Taker, turfs, root, search, step),
            look(Side::Giver, turfs, root, other, step),
        ),
{
    let loc = step.1;
    let next = look(Side::Taker, turfs, root, search, step);
    let there = look(Side::Giver, turfs, root, other, step);
    assert(search.info.contains_key(loc) == other.info.contains_key(loc));
    assert(search.info.contains_key(root) == other.info.contains_key(root));
    assert(passable(turfs, search.info, loc) == passable(turfs, other.info, loc));
    if passable(turfs, search.info, loc) && !holds(search.queue, loc) {
        let fresh = reached(search.info[loc], step.0 as int);
        let mirror = reached(other.info[loc], step.0 as int);
        assert(m.books(search.info[loc], other.info[loc]));
        assert(m.books(fresh, mirror));
        lemma_matched(m, fresh, mirror, search.own.mole_delta, other.own.mole_delta);
        assert(m.books(next.own, there.own));
    }
    assert(next.info.dom() =~= there.info.dom());
    assert forall|k: TurfID| #[trigger] next.info.contains_key(k) implies m.books(
        next.info[k],
        there.info[k],
    ) by {
        if search.info.contains_key(k) {
            assert(m.books(search.info[k], other.info[k]));
        }
    }
}

proof fn lemma_look_around<A: Amount>(
    m: Mirror<A>,
    turfs: Seq<MixWithID>,
    root: TurfID,
    search: Search<A>,
    other: Search<A>,
    steps: Seq<(u8, TurfID)>,
)
    requires
        m.wf(),
        m.search(search, other),
        forall|k: int| 0 <= k < steps.len() ==> (#[trigger] steps[k]).0 < 6,
    ensures
        m.search(
            look_around(Side::Taker, turfs, root, search, steps),
            look_around(Side::Giver, turfs, root, other, steps),
        ),
    decreases steps.len(),
{
    let d = search.own.mole_delta;
    let e = other.own.mole_delta;
    assert(m.shows(d, e, d, e));
    if steps.len() > 0 && !satisfied(Side::Taker, d) {
        assert(steps[0].0 < 6);
        lemma_look(m, turfs, root, search, other, steps[0]);
        lemma_look_around(
            m,
            turfs,
            root,
            look(Side::Taker, turfs, root, search, steps[0]),
            look(Side::Giver, turfs, root, other, steps[0]),
            steps.drop_first(),
        );
    }
}

proof fn lemma_explore<A: Amount>(
    m: Mirror<A>,
    turfs: Seq<MixWithID>,
    max_x: int,
    max_y: int,
    root: TurfID,
    search: Search<A>,
    other: Search<A>,
    at: int,
)
    requires
        m.wf(),
        m.search(search, other),
    ensures
        m.search(
            explore(Side::Taker, turfs, max_x, max_y, root, search, at),
            explore(Side::Giver, turfs, max_x, max_y, root, other, at),
        ),
    decreases 0x1_0000_0000 - at,
{
    let d = search.own.mole_delta;
    let e = other.own.mole_delta;
    assert(m.shows(d, e, d, e));
    if at < search.queue.len() && at < 0x1_0000_0000 && !satisfied(Side::Taker, d) {
        let (i, mixture) = search.queue[at];
        let steps = neighbours(mixture.adjacency, i, max_x, max_y, 0, 6);
        lemma_neighbours(mixture.adjacency, i, max_x, max_y, 0, 6);
        lemma_look_around(m, turfs, root, search, other, steps);
        lemma_explore(
            m,
            turfs,
            max_x,
            max_y,
            root,
            look_around(Side::Taker, turfs, root, search, steps),
            look_around(Side::Giver, turfs, root, other, steps),
            at + 1,
        );
    }
}

/// What is sent and received is seen in the mirror.
proof fn lemma_sends<A: Amount>(m: Mirror<A>, a: Ledger<A>, b: Ledger<A>, dir: int, x: A, y: A)
    requires
        m.wf(),
        m.books(a, b),
        0 <= dir < 7,
        (m.seen)(x, y),
    ensures
        m.books(a.sends(dir, x), b.sends(dir, y)),
        m.books(a.receives(dir, x), b.receives(dir, y)),
{
    assert(m.shows(a.transfers[dir], b.transfers[dir], x, y));
    assert forall|d: int| 0 <= d < 7 implies (m.seen)(a.transfers[d], b.transfers[d]) by {}
}

proof fn lemma_pass_on<A: Amount>(
    m: Mirror<A>,
    info: Map<TurfID, Ledger<A>>,
    other: Map<TurfID, Ledger<A>>,
    i: TurfID,
    max_x: int,
    max_y: int,
)
    requires
        m.wf(),
        m.info(info, other),
    ensures
        m.info(pass_on(info, i, max_x, max_y), pass_on(other, i, max_x, max_y)),
{
    let own = info[i];
    let there = other[i];
    let dir = own.curr_transfer_dir;
    let x = own.curr_transfer_amount;
    let y = there.curr_transfer_amount;
    let loc = adjacent(dir, i, max_x, max_y);
    let after = pass_on(info, i, max_x, max_y);
    let mirror = pass_on(other, i, max_x, max_y);
    assert(info.contains_key(i) == other.contains_key(i));
    if info.contains_key(i) {
        assert(m.books(own, there));
        assert(info.contains_key(loc) == other.contains_key(loc));
        assert(m.shows(x, y, x, y));
        if info.contains_key(loc) && dir != 6 {
            assert(m.books(info[loc], other[loc]));
            assert(0 <= opposite(dir) < 6);
            lemma_sends(m, own, there, dir, x, y);
            lemma_sends(m, info[loc], other[loc], opposite(dir), x, y);
            assert(m.shows(
                info[loc].curr_transfer_amount,
                other[loc].curr_transfer_amount,
                x,
                y,
            ));
        }
    }
    assert(after.dom() =~= mirror.dom());
    assert forall|k: TurfID| #[trigger] after.contains_key(k) implies m.books(
        after[k],
        mirror[k],
    ) by {
        assert(info.contains_key(k));
        assert(m.books(info[k], other[k]));
    }
}

proof fn lemma_pass_all_on<A: Amount>(
    m: Mirror<A>,
    info: Map<TurfID, Ledger<A>>,
    other: Map<TurfID, Ledger<A>>,
    queue: Seq<MixWithID>,
    max_x: int,
    max_y: int,
)
    requires
        m.wf(),
        m.info(info, other),
    ensures
        m.info(pass_all_on(info, queue, max_x, max_y), pass_all_on(other, queue, max_x, max_y)),
    decreases queue.len(),
{
    if queue.len() > 0 {
        let i = queue.last().0;
        lemma_pass_on(m, info, other, i, max_x, max_y);
        lemma_pass_all_on(
            m,
            pass_on(info, i, max_x, max_y),
            pass_on(other, i, max_x, max_y),
            queue.drop_last(),
            max_x,
            max_y,
        );
    }
}

proof fn lemma_settled<A: Amount>(
    m: Mirror<A>,
    list: Seq<MixWithID>,
    turfs: Seq<MixWithID>,
    max_x: int,
    max_y: int,
    info: Map<TurfID, Ledger<A>>,
    other: Map<TurfID, Ledger<A>>,
)
    requires
        m.wf(),
        m.info(info, other),
    ensures
        m.info(
            settled(Side::Taker, list, turfs, max_x, max_y, info),
            settled(Side::Giver, list, turfs, max_x, max_y, other),
        ),
    decreases list.len(),
{
    if list.len() > 0 {
        let front = list.drop_last();
        let turf = list.last();
        let root = turf.0;
        lemma_settled(m, front, turfs, max_x, max_y, info, other);
        let between = settled(Side::Taker, front, turfs, max_x, max_y, info);
        let mirror = settled(Side::Giver, front, turfs, max_x, max_y, other);
        assert(between.contains_key(root) == mirror.contains_key(root));
        if between.contains_key(root) {
            let first = search_from(between, turf);
            let there = search_from(mirror, turf);
            assert(m.books(between[root], mirror[root]));
            assert(first.info.dom() =~= there.info.dom());
            assert forall|k: TurfID| #[trigger] first.info.contains_key(k) implies m.books(
                first.info[k],
                there.info[k],
            ) by {
                assert(between.contains_key(k));
                assert(m.books(between[k], mirror[k]));
            }
            lemma_explore(m, turfs, max_x, max_y, root, first, there, 0);
            let end = explore(Side::Taker, turfs, max_x, max_y, root, first, 0);
            let last = explore(Side::Giver, turfs, max_x, max_y, root, there, 0);
            lemma_pass_all_on(m, end.info, last.info, end.queue, max_x, max_y);
        }
    }
}

/// The books `b` are what is seen of the books `a` in the mirror.
pub open spec fn books_face<A: Amount>(a: Ledger<A>, b: Ledger<A>) -> bool {
    &&& forall|d: int|
        #![trigger a.transfers[d]]
        #![trigger b.transfers[d]]
        0 <= d < 7 ==> faces(a.transfers[d], b.transfers[d])
    &&& faces(a.mole_delta, b.mole_delta)
    &&& faces(a.curr_transfer_amount, b.curr_transfer_amount)
    &&& a.curr_transfer_dir == b.curr_transfer_dir
    &&& a.fast_done == b.fast_done
}

/// All books `b` are what is seen of the books `a` in the mirror.
pub open spec fn all_face<A: Amount>(
    a: Map<TurfID, Ledger<A>>,
    b: Map<TurfID, Ledger<A>>,
) -> bool {
    &&& a.dom() == b.dom()
    &&& forall|k: TurfID| #[trigger] a.contains_key(k) ==> books_face(a[k], b[k])
}

/// Taking is giving in the mirror: matching takers gives the negative of what
/// matching givers gives on books with all amounts negated. Amounts may be
/// rounded.
pub proof fn taking_mirrors_giving<A: Amount>(
    list: Seq<MixWithID>,
    turfs: Seq<MixWithID>,
    max_x: int,
    max_y: int,
    info: Map<TurfID, Ledger<A>>,
)
    requires
        mirrored::<A>(),
        books_wf(info),
    ensures
        all_face(
            settled(Side::Taker, list, turfs, max_x, max_y, info),
            settled(Side::Giver, list, turfs, max_x, max_y, all_negated(info)),
        ),
{
    let m = Mirror::<A> { seen: |a: A, b: A| faces(a, b), keeps: |a: A| true };
    let z = A::spec_zero();
    assert(reflects(z, z, z, z));
    assert forall|a: A, b: A, x: A, y: A| #[trigger] m.shows(a, b, x, y) by {
        assert(reflects(a, b, x, y));
    }
    assert forall|found: A, own: A| #[trigger] m.closed_under_match(found, own) by {}
    let other = all_negated(info);
    assert(info.dom() =~= other.dom());
    assert forall|k: TurfID| #[trigger] info.contains_key(k) implies m.books(info[k], other[k]) by {
        assert(info[k].wf());
        assert(reflects(info[k].mole_delta, z, z, z));
        assert(reflects(info[k].curr_transfer_amount, z, z, z));
        assert forall|d: int|
            #![trigger info[k].transfers[d]]
            #![trigger other[k].transfers[d]]
            0 <= d < 7 implies (m.seen)(info[k].transfers[d], other[k].transfers[d]) by {
            assert(reflects(info[k].transfers[d], z, z, z));
        }
    }
    lemma_settled(m, list, turfs, max_x, max_y, info, other);
    let taken = settled(Side::Taker, list, turfs, max_x, max_y, info);
    let given = settled(Side::Giver, list, turfs, max_x, max_y, other);
    assert forall|k: TurfID| #[trigger] taken.contains_key(k) implies books_face(
        taken[k],
        given[k],
    ) by {
        assert(m.books(taken[k], given[k]));
        assert forall|d: int|
            #![trigger taken[k].transfers[d]]
            #![trigger given[k].transfers[d]]
            0 <= d < 7 implies faces(taken[k].transfers[d], given[k].transfers[d]) by {
            assert((m.seen)(taken[k].transfers[d], given[k].transfers[d]));
        }
    }
}

/// The mirror of whole quanta.
spec fn quanta_mirror() -> Mirror<Quanta> {
    Mirror {
        seen: |a: Quanta, b: Quanta| b == a.spec_negate(),
        keeps: |a: Quanta| a.n > i64::MIN,
    }
}

proof fn lemma_quanta_sums(a: Quanta, x: Quanta)
    ensures
        a.spec_plus(x).spec_negate() == a.spec_negate().spec_plus(x.spec_negate()),
        a.spec_minus(x).spec_negate() == a.spec_negate().spec_minus(x.spec_negate()),
        a.spec_same(Quanta::spec_zero()) == a.spec_negate().spec_same(Quanta::spec_zero()),
{
    quanta_are_exact();
    let z = Quanta::spec_zero();
    let n = x.spec_negate();
    lemma_negate_sum(a, x);
    lemma_negate_sum(a, n);
    lemma_group(a, x, z);
    lemma_group(a.spec_negate(), n, z);
    assert(a.spec_same(z) == a.spec_negate().spec_same(z)) by {
        lemma_group(a, z, z);
        lemma_group(a.spec_negate(), z, z);
        lemma_group(z, z, z);
        lemma_group(a.spec_negate(), a, z);
        lemma_negate_twice(a);
    }
}

proof fn lemma_quanta_order(a: Quanta, x: Quanta)
    ensures
        a.n > i64::MIN ==> Quanta::spec_zero().spec_lt(a) == a.spec_negate().spec_lt(
            Quanta::spec_zero(),
        ),
        a.n > i64::MIN ==> Quanta::spec_zero().spec_le(a) == a.spec_negate().spec_le(
            Quanta::spec_zero(),
        ),
        a.n > i64::MIN && x.n > i64::MIN ==> a.spec_negate().spec_lt(x)
            == a.spec_negate().spec_lt(x.spec_negate().spec_negate()),
{
}

proof fn lemma_quanta_match(found: Quanta, own: Quanta)
    ensures
        quanta_mirror().closed_under_match(found, own),
{
}

proof fn lemma_quanta_mirror()
    ensures
        quanta_mirror().wf(),
{
    let m = quanta_mirror();
    let z = Quanta::spec_zero();
    assert(z.spec_negate() == z);
    assert forall|a: Quanta, b: Quanta, x: Quanta, y: Quanta| #[trigger] m.shows(a, b, x, y) by {
        lemma_quanta_sums(a, x);
        lemma_quanta_order(a, x);
    }
    assert forall|found: Quanta, own: Quanta| #[trigger] m.closed_under_match(found, own) by {
        lemma_quanta_match(found, own);
    }
}

/// Taking is giving in the mirror, for whole quanta of which no surplus is the
/// one number of which the negative cannot be represented.
pub proof fn taking_quanta_mirrors_giving(
    list: Seq<MixWithID>,
    turfs: Seq<MixWithID>,
    max_x: int,
    max_y: int,
    info: Map<TurfID, Ledger<Quanta>>,
)
    requires
        books_wf(info),
        representable(info),
    ensures
        settled(Side::Taker, list, turfs, max_x, max_y, info) == all_negated(
            settled(Side::Giver, list, turfs, max_x, max_y, all_negated(info)),
        ),
{
    let m = quanta_mirror();
    lemma_quanta_mirror();
    let other = all_negated(info);
    assert(info.dom() =~= other.dom());
    assert forall|k: TurfID| #[trigger] info.contains_key(k) implies m.books(info[k], other[k]) by {
        assert(info[k].wf());
        assert(above(info, k) > i64::MIN);
    }
    lemma_settled(m, list, turfs, max_x, max_y, info, other);
    let taken = settled(Side::Taker, list, turfs, max_x, max_y, info);
    let given = settled(Side::Giver, list, turfs, max_x, max_y, other);
    let back = all_negated(given);
    assert forall|k: TurfID| #[trigger] taken.contains_key(k) implies taken[k] == back[k] by {
        assert(m.books(taken[k], given[k]));
        assert forall|d: int| 0 <= d < 7 implies taken[k].transfers[d] == back[k].transfers[d] by {
            assert((m.seen)(taken[k].transfers[d], given[k].transfers[d]));
        }
        assert(taken[k].transfers =~= back[k].transfers);
    }
    assert(taken =~= back);
}

} // verus!
