//! How many turfs are counted.
use vstd::prelude::*;
use crate::amount::Amount;
use crate::zone::{all_processed, wrapping_sum, ZoneBooks};

verus! {

proof fn lemma_wrapping_sum(a: usize, b: usize)
    ensures
        wrapping_sum(a as int, b as int) == (a + b) % (usize::MAX + 1),
{
    if a + b > usize::MAX {
        vstd::arithmetic::div_mod::lemma_fundamental_div_mod_converse(
            a + b,
            usize::MAX + 1,
            1,
            a + b - usize::MAX - 1,
        );
    } else {
        vstd::arithmetic::div_mod::lemma_small_mod((a + b) as nat, (usize::MAX + 1) as nat);
    }
}

/// Every zone counts with its own number: no zones count for nothing, a single
/// zone for its turfs, and zones `a` followed by zones `b` for what both count
/// for together, modulo the size of a `usize`.
pub proof fn every_zone_counts<A: Amount>(
    a: Seq<ZoneBooks<A>>,
    b: Seq<ZoneBooks<A>>,
    zone: ZoneBooks<A>,
)
    ensures
        all_processed(Seq::<ZoneBooks<A>>::empty()) == 0,
        all_processed(seq![zone]) == zone.turfs_processed,
        all_processed(a + b) == (all_processed(a) + all_processed(b)) % (usize::MAX + 1),
    decreases b.len(),
{
    assert(seq![zone].drop_last() =~= Seq::empty());
    assert(all_processed(seq![zone].drop_last()) == 0);
    lemma_wrapping_sum(0, zone.turfs_processed);
    vstd::arithmetic::div_mod::lemma_small_mod(
        zone.turfs_processed as nat,
        (usize::MAX + 1) as nat,
    );
    if b.len() == 0 {
        assert(a + b =~= a);
        vstd::arithmetic::div_mod::lemma_small_mod(
            all_processed(a) as nat,
            (usize::MAX + 1) as nat,
        );
    } else {
        let front = b.drop_last();
        let last = b.last();
        every_zone_counts(a, front, zone);
        assert((a + b).drop_last() =~= a + front);
        assert((a + b).last() == last);
        let m = usize::MAX + 1;
        let x = all_processed(a) as int;
        let y = all_processed(front) as int;
        let z = last.turfs_processed as int;
        lemma_wrapping_sum(all_processed(a + front), last.turfs_processed);
        lemma_wrapping_sum(all_processed(front), last.turfs_processed);
        vstd::arithmetic::div_mod::lemma_add_mod_noop(x + y, z, m);
        vstd::arithmetic::div_mod::lemma_add_mod_noop(x, y + z, m);
        vstd::arithmetic::div_mod::lemma_small_mod(z as nat, m as nat);
        vstd::arithmetic::div_mod::lemma_small_mod(x as nat, m as nat);
    }
}

/// The order of zones does not matter, and a zone that counts for nothing can be
/// left out.
pub proof fn zones_count_in_any_order<A: Amount>(a: Seq<ZoneBooks<A>>, b: Seq<ZoneBooks<A>>)
    ensures
        all_processed(a + b) == all_processed(b + a),
        all_processed(b) == 0 ==> all_processed(a + b) == all_processed(a),
{
    if a.len() > 0 {
        every_zone_counts(a, b, a[0]);
        every_zone_counts(b, a, a[0]);
        vstd::arithmetic::div_mod::lemma_small_mod(
            all_processed(a) as nat,
            (usize::MAX + 1) as nat,
        );
    } else {
        assert(a + b =~= b);
        assert(b + a =~= b);
    }
}

} // verus!
