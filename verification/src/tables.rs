//! The tables that the solver works on, and what is taken for granted of the
//! collections that hold them.
use vstd::prelude::*;
use vstd::std_specs::hash::builds_valid_hashers;
use std::collections::HashMap;
use std::collections::HashSet;
use ahash::RandomState;
use fxhash::FxBuildHasher;
use indexmap::{IndexMap, IndexSet};
use crate::amount::Amount;
use crate::grid::TurfID;
use crate::info::{Ledger, MonstermosInfo, ReducedInfo};

verus! {

/// What is known of a turf without looking into its air.
#[derive(Clone, Copy, Debug, PartialEq, Eq, Structural)]
pub struct TurfMixture {
    /// The slot of the turf's air.
    pub mix: usize,
    /// One bit for each direction in which gas can flow.
    pub adjacency: u8,
    /// Whether the turf takes part in the simulation.
    pub simulated: bool,
    /// The planet whose atmosphere the turf belongs to.
    pub planetary_atmos: Option<u32>,
}

impl TurfMixture {
    pub fn enabled(&self) -> (r: bool)
        ensures
            r == self.simulated,
    {
        self.simulated
    }
}

/// A turf and where it is.
pub type MixWithID = (TurfID, TurfMixture);

#[verifier::external_type_specification]
#[verifier::external_body]
#[verifier::reject_recursive_types(K)]
#[verifier::reject_recursive_types(V)]
#[verifier::reject_recursive_types(S)]
pub struct ExIndexMap<K, V, S>(indexmap::IndexMap<K, V, S>);

#[verifier::external_type_specification]
#[verifier::external_body]
#[verifier::reject_recursive_types(T)]
#[verifier::reject_recursive_types(S)]
pub struct ExIndexSet<T, S>(indexmap::IndexSet<T, S>);

#[verifier::external_type_specification]
#[verifier::external_body]
pub struct ExFxHasher(fxhash::FxHasher);

#[verifier::external_type_specification]
#[verifier::external_body]
#[verifier::reject_recursive_types(H)]
pub struct ExBuildHasherDefault<H>(std::hash::BuildHasherDefault<H>);

#[verifier::external_type_specification]
#[verifier::external_body]
pub struct ExAhashRandomState(ahash::RandomState);

/// Hashers built by a value of the type of `hasher` agree on equal keys.
pub open spec fn builds_alike<S>(hasher: S) -> bool {
    builds_valid_hashers::<S>()
}

/// `FxBuildHasher::default`. Claimed of it: every hasher that it builds starts
/// from the same state, and equal writes leave equal states behind.
#[verifier::external_body]
fn fx_build_hasher() -> (hasher: FxBuildHasher)
    ensures
        builds_alike(hasher),
{
    FxBuildHasher::default()
}

/// The turfs that an index map holds, in the order in which they came.
pub uninterp spec fn zone_contents(map: IndexMap<u32, TurfMixture, FxBuildHasher>) -> Seq<
    (u32, TurfMixture),
>;

/// Whether turf `i` is among `entries`.
pub open spec fn holds(entries: Seq<MixWithID>, i: TurfID) -> bool {
    exists|p: int| 0 <= p < entries.len() && (#[trigger] entries[p]).0 == i
}

/// Where in `entries` turf `i` stands.
pub open spec fn place(entries: Seq<MixWithID>, i: TurfID) -> int {
    choose|p: int| 0 <= p < entries.len() && (#[trigger] entries[p]).0 == i
}

/// What `entries` says of turf `i`.
pub open spec fn entry_of(entries: Seq<MixWithID>, i: TurfID) -> Option<TurfMixture> {
    if holds(entries, i) {
        Some(entries[place(entries, i)].1)
    } else {
        None
    }
}

/// `entries` with `mixture` for turf `i`: in its place if `i` has one, else last.
pub open spec fn put(entries: Seq<MixWithID>, i: TurfID, mixture: TurfMixture) -> Seq<MixWithID> {
    if holds(entries, i) {
        entries.update(place(entries, i), (i, mixture))
    } else {
        entries.push((i, mixture))
    }
}

/// No turf occurs twice.
pub open spec fn distinct(entries: Seq<MixWithID>) -> bool {
    forall|p: int, q: int|
        0 <= p < q < entries.len() ==> (#[trigger] entries[p]).0 != (#[trigger] entries[q]).0
}

/// `IndexMap::with_hasher`: the map is empty.
#[verifier::external_body]
fn index_map_with_hasher(hasher: FxBuildHasher) -> (map: IndexMap<u32, TurfMixture, FxBuildHasher>)
    ensures
        zone_contents(map) == Seq::<(u32, TurfMixture)>::empty(),
{
    IndexMap::with_hasher(hasher)
}

/// `IndexMap::insert`: a key that is there keeps its place and gets the new
/// value, and the old value comes back; any other key is added last.
#[verifier::external_body]
fn index_map_insert(
    map: &mut IndexMap<u32, TurfMixture, FxBuildHasher>,
    key: u32,
    value: TurfMixture,
) -> (former: Option<TurfMixture>)
    ensures
        zone_contents(*final(map)) == put(zone_contents(*old(map)), key, value),
        former == entry_of(zone_contents(*old(map)), key),
{
    map.insert(key, value)
}

/// `IndexMap::get`: the value that is kept for the key.
#[verifier::external_body]
fn index_map_get(map: &IndexMap<u32, TurfMixture, FxBuildHasher>, key: u32) -> (value: Option<
    TurfMixture,
>)
    ensures
        value == entry_of(zone_contents(*map), key),
{
    map.get(&key).copied()
}

/// `IndexMap::get_index`: the pair that stands at `index`.
#[verifier::external_body]
fn index_map_get_index(map: &IndexMap<u32, TurfMixture, FxBuildHasher>, index: usize) -> (pair:
    Option<(u32, TurfMixture)>)
    ensures
        pair == if index < zone_contents(*map).len() {
            Some(zone_contents(*map)[index as int])
        } else {
            None
        },
{
    map.get_index(index).map(|pair| (*pair.0, *pair.1))
}

/// `IndexMap::len`: the number of pairs.
#[verifier::external_body]
fn index_map_len(map: &IndexMap<u32, TurfMixture, FxBuildHasher>) -> (len: usize)
    ensures
        len == zone_contents(*map).len(),
{
    map.len()
}

/// `IndexMap::drain` over the full range: the pairs come out in their order,
/// and the map is left empty.
#[verifier::external_body]
fn index_map_drain(map: &mut IndexMap<u32, TurfMixture, FxBuildHasher>) -> (pairs: Vec<
    (u32, TurfMixture),
>)
    ensures
        pairs@ == zone_contents(*old(map)),
        zone_contents(*final(map)) == Seq::<(u32, TurfMixture)>::empty(),
{
    map.drain(..).collect()
}

/// `put` keeps turfs distinct, and of the turfs only `i` gets another entry.
pub proof fn lemma_put(entries: Seq<MixWithID>, i: TurfID, mixture: TurfMixture)
    requires
        distinct(entries),
    ensures
        distinct(put(entries, i, mixture)),
        forall|k: TurfID| #[trigger]
            entry_of(put(entries, i, mixture), k) == if k == i {
                Some(mixture)
            } else {
                entry_of(entries, k)
            },
        forall|k: TurfID| #[trigger]
            holds(put(entries, i, mixture), k) == (k == i || holds(entries, k)),
{
    let after = put(entries, i, mixture);
    assert forall|k: TurfID|
        #![trigger entry_of(after, k)]
        #![trigger holds(after, k)]
        entry_of(after, k) == (if k == i {
            Some(mixture)
        } else {
            entry_of(entries, k)
        }) && holds(after, k) == (k == i || holds(entries, k)) by {
        if holds(entries, i) {
            assert(after[place(entries, i)] == (i, mixture));
        } else {
            assert(after[entries.len() as int] == (i, mixture));
        }
        if holds(entries, k) && k != i {
            assert(after[place(entries, k)] == entries[place(entries, k)]);
        }
        if holds(after, k) && k != i {
            let p = place(after, k);
            assert(entries[p] == after[p]);
        }
    }
}

/// Distinct turfs are fewer than there are indices.
pub proof fn lemma_distinct_len(ids: Seq<u32>)
    requires
        ids.no_duplicates(),
    ensures
        ids.len() <= 0x1_0000_0000,
{
    let all = vstd::set_lib::set_int_range(0, 0x1_0000_0000);
    vstd::set_lib::lemma_int_range(0, 0x1_0000_0000);
    let wide = ids.map_values(|i: u32| i as int);
    assert(wide.no_duplicates());
    wide.unique_seq_to_set();
    assert(wide.to_set().subset_of(all));
    vstd::set_lib::lemma_len_subset(wide.to_set(), all);
}

/// As [`lemma_distinct_len`], for turfs with their mixtures.
pub proof fn lemma_distinct_entries_len(entries: Seq<MixWithID>)
    requires
        distinct(entries),
    ensures
        entries.len() <= 0x1_0000_0000,
{
    let ids = entries.map_values(|e: MixWithID| e.0);
    assert forall|p: int, q: int| 0 <= p < ids.len() && 0 <= q < ids.len() && p != q implies ids[p]
        != ids[q] by {
        if p < q {
            assert(entries[p].0 != entries[q].0);
        } else {
            assert(entries[q].0 != entries[p].0);
        }
    }
    lemma_distinct_len(ids);
}

/// The turfs that an index set holds, in the order in which they came.
pub uninterp spec fn set_contents(set: IndexSet<u32, FxBuildHasher>) -> Seq<u32>;

/// `IndexSet::with_hasher`: the set is empty.
#[verifier::external_body]
fn index_set_with_hasher(hasher: FxBuildHasher) -> (set: IndexSet<u32, FxBuildHasher>)
    ensures
        set_contents(set) == Seq::<u32>::empty(),
{
    IndexSet::with_hasher(hasher)
}

/// `IndexSet::insert`: a value that is not there yet is added last; the result
/// tells whether it was added.
#[verifier::external_body]
fn index_set_insert(set: &mut IndexSet<u32, FxBuildHasher>, value: u32) -> (added: bool)
    ensures
        added == !set_contents(*old(set)).contains(value),
        set_contents(*final(set)) == if added {
            set_contents(*old(set)).push(value)
        } else {
            set_contents(*old(set))
        },
{
    set.insert(value)
}

/// `IndexSet::get_index`: the value that stands at `index`.
#[verifier::external_body]
fn index_set_get_index(set: &IndexSet<u32, FxBuildHasher>, index: usize) -> (value: Option<u32>)
    ensures
        value == if index < set_contents(*set).len() {
            Some(set_contents(*set)[index as int])
        } else {
            None
        },
{
    set.get_index(index).copied()
}

/// `IndexSet::len`: the number of values.
#[verifier::external_body]
fn index_set_len(set: &IndexSet<u32, FxBuildHasher>) -> (len: usize)
    ensures
        len == set_contents(*set).len(),
{
    set.len()
}

/// Turfs in the order in which they were found.
pub struct TurfOrder {
    set: IndexSet<u32, FxBuildHasher>,
}

impl View for TurfOrder {
    type V = Seq<TurfID>;

    closed spec fn view(&self) -> Seq<TurfID> {
        set_contents(self.set)
    }
}

impl TurfOrder {
    #[verifier::type_invariant]
    pub closed spec fn wf(self) -> bool {
        set_contents(self.set).no_duplicates()
    }

    pub fn new() -> (order: Self)
        ensures
            order@ == Seq::<TurfID>::empty(),
    {
        TurfOrder { set: index_set_with_hasher(fx_build_hasher()) }
    }

    /// No turf stands in an order twice.
    pub proof fn lemma_distinct(self)
        requires
            self.wf(),
        ensures
            self@.no_duplicates(),
            self@.len() <= 0x1_0000_0000,
    {
        lemma_distinct_len(self@);
    }

    /// Adds turf `i` at the end unless it is there; whether it was added.
    pub fn insert(&mut self, i: TurfID) -> (added: bool)
        ensures
            added == !old(self)@.contains(i),
            final(self)@ == if added {
                old(self)@.push(i)
            } else {
                old(self)@
            },
    {
        proof {
            use_type_invariant(&*self);
        }
        let mut set = index_set_with_hasher(fx_build_hasher());
        std::mem::swap(&mut set, &mut self.set);
        let added = index_set_insert(&mut set, i);
        self.set = set;
        added
    }

    pub fn get_index(&self, index: usize) -> (i: Option<TurfID>)
        ensures
            i == if index < self@.len() {
                Some(self@[index as int])
            } else {
                None
            },
    {
        index_set_get_index(&self.set, index)
    }

    pub fn len(&self) -> (len: usize)
        ensures
            len == self@.len(),
    {
        index_set_len(&self.set)
    }
}

/// The turfs with their adjacencies that an index set holds, in the order in
/// which they came.
pub uninterp spec fn pair_set_contents(set: IndexSet<(u32, u8), RandomState>) -> Seq<(u32, u8)>;

/// `RandomState::default`, a source of hashers. Nothing is claimed of it.
#[verifier::external_body]
fn ahash_random_state() -> RandomState {
    RandomState::default()
}

/// `IndexSet::with_hasher`: the set is empty.
#[verifier::external_body]
fn pair_set_with_hasher(hasher: RandomState) -> (set: IndexSet<(u32, u8), RandomState>)
    ensures
        pair_set_contents(set) == Seq::<(u32, u8)>::empty(),
{
    IndexSet::with_hasher(hasher)
}

/// `IndexSet::insert`: a value that is not there yet is added last; the result
/// tells whether it was added.
#[verifier::external_body]
fn pair_set_insert(set: &mut IndexSet<(u32, u8), RandomState>, value: (u32, u8)) -> (added: bool)
    ensures
        added == !pair_set_contents(*old(set)).contains(value),
        pair_set_contents(*final(set)) == if added {
            pair_set_contents(*old(set)).push(value)
        } else {
            pair_set_contents(*old(set))
        },
{
    set.insert(value)
}

/// `IndexSet::get_index`: the value that stands at `index`.
#[verifier::external_body]
fn pair_set_get_index(set: &IndexSet<(u32, u8), RandomState>, index: usize) -> (value: Option<
    (u32, u8),
>)
    ensures
        value == if index < pair_set_contents(*set).len() {
            Some(pair_set_contents(*set)[index as int])
        } else {
            None
        },
{
    set.get_index(index).copied()
}

/// `IndexSet::len`: the number of values.
#[verifier::external_body]
fn pair_set_len(set: &IndexSet<(u32, u8), RandomState>) -> (len: usize)
    ensures
        len == pair_set_contents(*set).len(),
{
    set.len()
}

/// Pairs without repetition are fewer than there are pairs.
pub proof fn lemma_distinct_pairs_len(pairs: Seq<(u32, u8)>)
    requires
        pairs.no_duplicates(),
    ensures
        pairs.len() <= 0x100_0000_0000,
{
    let all = vstd::set_lib::set_int_range(0, 0x100_0000_0000);
    vstd::set_lib::lemma_int_range(0, 0x100_0000_0000);
    let wide = pairs.map_values(|pair: (u32, u8)| pair.0 * 256 + pair.1);
    assert(wide.no_duplicates());
    wide.unique_seq_to_set();
    assert(wide.to_set().subset_of(all));
    vstd::set_lib::lemma_len_subset(wide.to_set(), all);
}

/// Turfs in the order in which they were found, each with its adjacency.
pub struct SpreadOrder {
    set: IndexSet<(u32, u8), RandomState>,
}

impl View for SpreadOrder {
    type V = Seq<(TurfID, u8)>;

    closed spec fn view(&self) -> Seq<(TurfID, u8)> {
        pair_set_contents(self.set)
    }
}

impl SpreadOrder {
    pub fn new() -> (order: Self)
        ensures
            order@ == Seq::<(TurfID, u8)>::empty(),
    {
        SpreadOrder { set: pair_set_with_hasher(ahash_random_state()) }
    }

    /// Adds `turf` at the end unless it is there; whether it was added.
    pub fn insert(&mut self, turf: (TurfID, u8)) -> (added: bool)
        ensures
            added == !old(self)@.contains(turf),
            final(self)@ == if added {
                old(self)@.push(turf)
            } else {
                old(self)@
            },
    {
        pair_set_insert(&mut self.set, turf)
    }

    pub fn get_index(&self, index: usize) -> (turf: Option<(TurfID, u8)>)
        ensures
            turf == if index < self@.len() {
                Some(self@[index as int])
            } else {
                None
            },
    {
        pair_set_get_index(&self.set, index)
    }

    pub fn len(&self) -> (len: usize)
        ensures
            len == self@.len(),
    {
        pair_set_len(&self.set)
    }
}

/// Turfs in the order in which they were found, each with its mixture.
pub struct Zone {
    map: IndexMap<u32, TurfMixture, FxBuildHasher>,
}

impl View for Zone {
    type V = Seq<MixWithID>;

    closed spec fn view(&self) -> Seq<MixWithID> {
        zone_contents(self.map)
    }
}

impl Zone {
    #[verifier::type_invariant]
    pub closed spec fn wf(self) -> bool {
        distinct(zone_contents(self.map))
    }

    pub fn new() -> (zone: Self)
        ensures
            zone@ == Seq::<MixWithID>::empty(),
    {
        Zone { map: index_map_with_hasher(fx_build_hasher()) }
    }

    /// No turf stands in a zone twice.
    pub proof fn lemma_distinct(self)
        requires
            self.wf(),
        ensures
            distinct(self@),
            self@.len() <= 0x1_0000_0000,
    {
        lemma_distinct_entries_len(self@);
    }

    /// Adds turf `i`, or gives it another mixture.
    pub fn insert(&mut self, i: TurfID, mixture: TurfMixture) -> (former: Option<TurfMixture>)
        ensures
            final(self)@ == put(old(self)@, i, mixture),
            former == entry_of(old(self)@, i),
            distinct(final(self)@),
    {
        proof {
            use_type_invariant(&*self);
            lemma_put(self@, i, mixture);
        }
        let mut map = index_map_with_hasher(fx_build_hasher());
        std::mem::swap(&mut map, &mut self.map);
        let former = index_map_insert(&mut map, i, mixture);
        self.map = map;
        former
    }

    pub fn get(&self, i: TurfID) -> (mixture: Option<TurfMixture>)
        ensures
            mixture == entry_of(self@, i),
    {
        index_map_get(&self.map, i)
    }

    pub fn get_index(&self, index: usize) -> (entry: Option<MixWithID>)
        ensures
            entry == if index < self@.len() {
                Some(self@[index as int])
            } else {
                None
            },
    {
        index_map_get_index(&self.map, index)
    }

    pub fn len(&self) -> (len: usize)
        ensures
            len == self@.len(),
            distinct(self@),
    {
        proof {
            use_type_invariant(self);
        }
        index_map_len(&self.map)
    }

    /// Takes all turfs out, in their order.
    pub fn drain(&mut self) -> (entries: Vec<MixWithID>)
        ensures
            entries@ == old(self)@,
            final(self)@ == Seq::<MixWithID>::empty(),
            distinct(entries@),
    {
        proof {
            use_type_invariant(&*self);
        }
        let mut map = index_map_with_hasher(fx_build_hasher());
        std::mem::swap(&mut map, &mut self.map);
        index_map_drain(&mut map)
    }
}

/// The books of all turfs of a zone.
pub struct InfoMap<A: Amount> {
    map: HashMap<u32, MonstermosInfo<A>, FxBuildHasher>,
}

impl<A: Amount> View for InfoMap<A> {
    type V = Map<TurfID, Ledger<A>>;

    closed spec fn view(&self) -> Map<TurfID, Ledger<A>> {
        self.map@.map_values(|info: MonstermosInfo<A>| info@)
    }
}

/// Every ledger of `info` is well formed.
pub open spec fn books_wf<A: Amount>(info: Map<TurfID, Ledger<A>>) -> bool {
    forall|i: TurfID| #[trigger] info.contains_key(i) ==> info[i].wf()
}

impl<A: Amount> InfoMap<A> {
    #[verifier::type_invariant]
    pub closed spec fn wf(self) -> bool {
        &&& builds_valid_hashers::<FxBuildHasher>()
        &&& forall|i: u32| #[trigger]
            self.map@.contains_key(i) ==> self.map@[i].curr_transfer_dir <= 6
    }

    pub fn new() -> (info: Self)
        ensures
            info@ == Map::<TurfID, Ledger<A>>::empty(),
    {
        let _hasher = fx_build_hasher();
        let info = InfoMap { map: HashMap::default() };
        assert(info@ =~= Map::<TurfID, Ledger<A>>::empty());
        info
    }

    /// All books are well formed.
    pub proof fn lemma_wf(self)
        requires
            self.wf(),
        ensures
            books_wf(self@),
    {
    }

    /// The books of turf `i`.
    pub fn get(&self, i: TurfID) -> (r: Option<MonstermosInfo<A>>)
        ensures
            match r {
                Some(info) => self@.contains_key(i) && info@ == self@[i] && info@.wf(),
                None => !self@.contains_key(i),
            },
    {
        broadcast use vstd::std_specs::hash::group_hash_axioms;

        proof {
            use_type_invariant(self);
        }
        match self.map.get(&i) {
            Some(info) => Some(*info),
            None => None,
        }
    }

    /// Replaces the books of turf `i`, or begins them.
    pub fn insert(&mut self, i: TurfID, info: MonstermosInfo<A>)
        requires
            info.curr_transfer_dir <= 6,
        ensures
            final(self)@ == old(self)@.insert(i, info@),
    {
        broadcast use vstd::std_specs::hash::group_hash_axioms;

        proof {
            use_type_invariant(&*self);
        }
        let ghost before = self.map@;
        let mut map: HashMap<u32, MonstermosInfo<A>, FxBuildHasher> = HashMap::default();
        std::mem::swap(&mut map, &mut self.map);
        map.insert(i, info);
        self.map = map;
        assert(self.map@ == before.insert(i, info));
        assert(self@ =~= old(self)@.insert(i, info@));
    }

    /// Replaces the books of turf `i` if there are any.
    pub fn modify(&mut self, i: TurfID, info: MonstermosInfo<A>)
        requires
            info.curr_transfer_dir <= 6,
        ensures
            final(self)@ == if old(self)@.contains_key(i) {
                old(self)@.insert(i, info@)
            } else {
                old(self)@
            },
    {
        if self.get(i).is_some() {
            self.insert(i, info);
        }
    }
}

/// What is written down of the turfs of a zone that loses its air.
pub struct ReducedMap<A: Amount> {
    map: HashMap<u32, ReducedInfo<A>, FxBuildHasher>,
}

impl<A: Amount> View for ReducedMap<A> {
    type V = Map<TurfID, ReducedInfo<A>>;

    closed spec fn view(&self) -> Map<TurfID, ReducedInfo<A>> {
        self.map@
    }
}

/// What `info` says of turf `i`, or what is said of a turf at first.
pub open spec fn reduced_of<A: Amount>(info: Map<TurfID, ReducedInfo<A>>, i: TurfID) -> ReducedInfo<
    A,
> {
    if info.contains_key(i) {
        info[i]
    } else {
        ReducedInfo { curr_transfer_amount: A::spec_zero(), curr_transfer_dir: 6 }
    }
}

impl<A: Amount> ReducedMap<A> {
    #[verifier::type_invariant]
    pub closed spec fn wf(self) -> bool {
        &&& builds_valid_hashers::<FxBuildHasher>()
        &&& forall|i: u32| #[trigger]
            self.map@.contains_key(i) ==> self.map@[i].curr_transfer_dir <= 6
    }

    pub fn new() -> (info: Self)
        ensures
            info@ == Map::<TurfID, ReducedInfo<A>>::empty(),
    {
        let _hasher = fx_build_hasher();
        ReducedMap { map: HashMap::default() }
    }

    /// What is written down of turf `i`, or what is said of a turf at first.
    pub fn get(&self, i: TurfID) -> (r: ReducedInfo<A>)
        ensures
            r == reduced_of(self@, i),
            r.curr_transfer_dir <= 6,
    {
        broadcast use vstd::std_specs::hash::group_hash_axioms;

        proof {
            use_type_invariant(self);
        }
        match self.map.get(&i) {
            Some(r) => *r,
            None => ReducedInfo::default(),
        }
    }

    /// What is written down of turf `i`; if there is nothing yet, it is begun.
    pub fn get_or_default(&mut self, i: TurfID) -> (r: ReducedInfo<A>)
        ensures
            r == reduced_of(old(self)@, i),
            r.curr_transfer_dir <= 6,
            final(self)@ == old(self)@.insert(i, r),
    {
        broadcast use vstd::std_specs::hash::group_hash_axioms;

        proof {
            use_type_invariant(&*self);
        }
        let known: Option<ReducedInfo<A>> = match self.map.get(&i) {
            Some(r) => Some(*r),
            None => None,
        };
        match known {
            Some(r) => {
                assert(self@.insert(i, r) =~= self@);
                r
            },
            None => {
                let r: ReducedInfo<A> = ReducedInfo::default();
                self.insert(i, r);
                r
            },
        }
    }

    /// Writes down `r` of turf `i`.
    pub fn insert(&mut self, i: TurfID, r: ReducedInfo<A>)
        requires
            r.curr_transfer_dir <= 6,
        ensures
            final(self)@ == old(self)@.insert(i, r),
    {
        broadcast use vstd::std_specs::hash::group_hash_axioms;

        proof {
            use_type_invariant(&*self);
        }
        let mut map: HashMap<u32, ReducedInfo<A>, FxBuildHasher> = HashMap::default();
        std::mem::swap(&mut map, &mut self.map);
        map.insert(i, r);
        self.map = map;
    }
}

/// A set of turfs.
pub struct TurfSet {
    set: HashSet<u32, FxBuildHasher>,
}

impl View for TurfSet {
    type V = Set<TurfID>;

    closed spec fn view(&self) -> Set<TurfID> {
        self.set@
    }
}

impl TurfSet {
    #[verifier::type_invariant]
    pub closed spec fn wf(self) -> bool {
        builds_valid_hashers::<FxBuildHasher>()
    }

    pub fn new() -> (turfs: Self)
        ensures
            turfs@ == Set::<TurfID>::empty(),
    {
        let _hasher = fx_build_hasher();
        TurfSet { set: HashSet::default() }
    }

    /// Adds turf `i`; whether it is new.
    pub fn insert(&mut self, i: TurfID) -> (fresh: bool)
        ensures
            final(self)@ == old(self)@.insert(i),
            fresh == !old(self)@.contains(i),
    {
        broadcast use vstd::std_specs::hash::group_hash_axioms;

        proof {
            use_type_invariant(&*self);
        }
        let mut set: HashSet<u32, FxBuildHasher> = HashSet::default();
        std::mem::swap(&mut set, &mut self.set);
        let fresh = set.insert(i);
        self.set = set;
        fresh
    }

    pub fn contains(&self, i: TurfID) -> (r: bool)
        ensures
            r == self@.contains(i),
    {
        broadcast use vstd::std_specs::hash::group_hash_axioms;

        proof {
            use_type_invariant(self);
        }
        self.set.contains(&i)
    }
}

} // verus!
