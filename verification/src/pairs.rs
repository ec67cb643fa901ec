//! Sets of address pairs, kept in the hash collections of `ahash`.

use ahash::{AHashMap, AHashSet};
use vstd::prelude::*;

verus! {

/// A set of `ahash`.
#[verifier::external_type_specification]
#[verifier::external_body]
#[verifier::reject_recursive_types(T)]
#[verifier::reject_recursive_types(S)]
pub struct ExAHashSet<T, S>(ahash::AHashSet<T, S>);

/// A map of `ahash`.
#[verifier::external_type_specification]
#[verifier::external_body]
#[verifier::reject_recursive_types(K)]
#[verifier::reject_recursive_types(V)]
#[verifier::reject_recursive_types(S)]
pub struct ExAHashMap<K, V, S>(ahash::AHashMap<K, V, S>);

/// The hasher that both are built with.
#[verifier::external_type_specification]
#[verifier::external_body]
pub struct ExRandomState(ahash::RandomState);

/// The members of a set.
pub uninterp spec fn set_members(s: ahash::AHashSet<(u64, u64)>) -> Set<(u64, u64)>;

/// The entries of a map.
pub uninterp spec fn map_entries(m: ahash::AHashMap<(u64, u64), usize>) -> Map<(u64, u64), usize>;

/// An empty set, from `AHashSet::new`.
///
/// Trusted: it has no member.
#[verifier::external_body]
fn new_set() -> (r: AHashSet<(u64, u64)>)
    ensures
        set_members(r) == Set::<(u64, u64)>::empty(),
{
    AHashSet::new()
}

/// Adds a pair with `AHashSet::insert`.
///
/// Trusted: the set gains exactly this member, and the result says whether it was
/// missing before.
#[verifier::external_body]
fn add_to_set(s: &mut AHashSet<(u64, u64)>, pair: (u64, u64)) -> (fresh: bool)
    ensures
        set_members(*final(s)) == set_members(*old(s)).insert(pair),
        fresh == !set_members(*old(s)).contains(pair),
{
    s.insert(pair)
}

/// Looks a pair up with `AHashSet::contains`.
///
/// Trusted: the result says whether it is a member.
#[verifier::external_body]
fn is_in_set(s: &AHashSet<(u64, u64)>, pair: (u64, u64)) -> (r: bool)
    ensures
        r == set_members(*s).contains(pair),
{
    s.contains(&pair)
}

/// An empty map, from `AHashMap::new`.
///
/// Trusted: it has no entry.
#[verifier::external_body]
fn new_map() -> (r: AHashMap<(u64, u64), usize>)
    ensures
        map_entries(r).dom() == Set::<(u64, u64)>::empty(),
{
    AHashMap::new()
}

/// Sets an entry with `AHashMap::insert`.
///
/// Trusted: the pair has the value now, and no other entry changes.
#[verifier::external_body]
fn set_entry(m: &mut AHashMap<(u64, u64), usize>, pair: (u64, u64), value: usize)
    ensures
        map_entries(*final(m)) == map_entries(*old(m)).insert(pair, value),
{
    m.insert(pair, value);
}

/// Looks an entry up with `AHashMap::get`.
///
/// Trusted: the result is the value of the pair, if it has one.
#[verifier::external_body]
fn get_entry(m: &AHashMap<(u64, u64), usize>, pair: (u64, u64)) -> (r: Option<usize>)
    ensures
        r == if map_entries(*m).dom().contains(pair) {
            Some(map_entries(*m)[pair])
        } else {
            None
        },
{
    m.get(&pair).copied()
}

/// A set of address pairs that remembers the order in which they came.
pub struct PairSet {
    members: AHashSet<(u64, u64)>,
    items: Vec<(u64, u64)>,
}

/// A sequence with one more pair, unless it holds it.
pub open spec fn with_pair(s: Seq<(u64, u64)>, pair: (u64, u64)) -> Seq<(u64, u64)> {
    if s.contains(pair) {
        s
    } else {
        s.push(pair)
    }
}

impl View for PairSet {
    type V = Seq<(u64, u64)>;

    closed spec fn view(&self) -> Seq<(u64, u64)> {
        self.items@
    }
}

impl PairSet {
    /// Whether the set and the order agree, and no pair comes twice.
    pub closed spec fn wf(&self) -> bool {
        &&& self.items@.no_duplicates()
        &&& forall|p: (u64, u64)|
            set_members(self.members).contains(p) <==> #[trigger] self.items@.contains(p)
    }

    /// No pair comes twice.
    pub proof fn lemma_distinct(&self)
        requires
            self.wf(),
        ensures
            self@.no_duplicates(),
    {
    }

    /// An empty set.
    pub fn new() -> (r: PairSet)
        ensures
            r.wf(),
            r@ == Seq::<(u64, u64)>::empty(),
    {
        PairSet { members: new_set(), items: Vec::new() }
    }

    /// Adds a pair.
    pub fn insert(&mut self, from: u64, to: u64)
        requires
            old(self).wf(),
        ensures
            final(self).wf(),
            final(self)@ == with_pair(old(self)@, (from, to)),
    {
        let ghost before = self.items@;
        let pair = (from, to);
        assert(set_members(self.members).contains(pair) <==> before.contains(pair));
        if add_to_set(&mut self.members, pair) {
            self.items.push(pair);
            proof {
                let after = self.items@;
                assert(after == before.push(pair));
                assert forall|p: (u64, u64)|
                    set_members(self.members).contains(p) <==> #[trigger] after.contains(p) by {
                    if after.contains(p) {
                        let i = choose|i: int| 0 <= i < after.len() && after[i] == p;
                        if i < before.len() {
                            assert(before[i] == p);
                            assert(before.contains(p));
                        }
                    }
                    if before.contains(p) {
                        let i = choose|i: int| 0 <= i < before.len() && before[i] == p;
                        assert(after[i] == p);
                    }
                    if p == pair {
                        assert(after[before.len() as int] == p);
                    }
                }
                assert(after.no_duplicates()) by {
                    assert forall|i: int, j: int|
                        0 <= i < after.len() && 0 <= j < after.len() && i != j implies after[i]
                        != after[j] by {
                        if i < before.len() {
                            assert(before[i] == after[i]);
                            assert(before.contains(after[i]));
                        }
                        if j < before.len() {
                            assert(before[j] == after[j]);
                            assert(before.contains(after[j]));
                        }
                    }
                }
            }
        }
    }

    /// Whether a pair is in the set.
    pub fn contains(&self, from: u64, to: u64) -> (r: bool)
        requires
            self.wf(),
        ensures
            r == self@.contains((from, to)),
    {
        assert(set_members(self.members).contains((from, to)) <==> self.items@.contains(
            (from, to),
        ));
        is_in_set(&self.members, (from, to))
    }

    /// The number of pairs.
    pub fn len(&self) -> (r: usize)
        ensures
            r == self@.len(),
    {
        self.items.len()
    }

    /// The `i`-th pair.
    pub fn get(&self, i: usize) -> (r: (u64, u64))
        requires
            i < self@.len(),
        ensures
            r == self@[i as int],
    {
        self.items[i]
    }
}

/// The place at which each address pair came last.
pub struct PairIndex {
    entries: AHashMap<(u64, u64), usize>,
}

impl View for PairIndex {
    type V = Map<(u64, u64), usize>;

    closed spec fn view(&self) -> Map<(u64, u64), usize> {
        map_entries(self.entries)
    }
}

impl PairIndex {
    /// An empty index.
    pub fn new() -> (r: PairIndex)
        ensures
            r@ == Map::<(u64, u64), usize>::empty(),
    {
        let index = PairIndex { entries: new_map() };
        assert(index@ =~= Map::<(u64, u64), usize>::empty());
        index
    }

    /// Sets the place of a pair.
    pub fn set(&mut self, from: u64, to: u64, place: usize)
        ensures
            final(self)@ == old(self)@.insert((from, to), place),
    {
        set_entry(&mut self.entries, (from, to), place);
    }

    /// The place of a pair.
    pub fn get(&self, from: u64, to: u64) -> (r: Option<usize>)
        ensures
            r == if self@.dom().contains((from, to)) {
                Some(self@[(from, to)])
            } else {
                None
            },
    {
        get_entry(&self.entries, (from, to))
    }
}

} // verus!
