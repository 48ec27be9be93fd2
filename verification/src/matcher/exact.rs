//! The exact matcher: a table from whole inputs to slots.
//!
//! The table is the `hashbrown` crate's hash map. What this library relies
//! on is stated here and nowhere proved: a new map is empty, the map holds
//! what was inserted last under a key, and a lookup finds it.

use super::slot::{lemma_pairs_push, pairs, Builder, Matcher, Slot, Strategy};
use hashbrown::HashMap;
use vstd::prelude::*;

verus! {

/// A hash map from strings to slot numbers.
#[verifier::external_body]
pub struct SlotTable {
    map: HashMap<String, u64>,
}

/// What a table holds: the slot number under each key.
pub uninterp spec fn table_entries(t: SlotTable) -> Map<Seq<char>, u64>;

/// The empty mapping.
pub open spec fn no_entries() -> Map<Seq<char>, u64> {
    Map::empty()
}

/// An empty table, by `HashMap::new`.
#[verifier::external_body]
pub(crate) fn table_new() -> (t: SlotTable)
    ensures
        table_entries(t) == no_entries(),
{
    SlotTable { map: HashMap::new() }
}

/// Puts `slot` under `key`, by `HashMap::insert`: what was under the key
/// before is replaced, every other key keeps what it had.
#[verifier::external_body]
pub(crate) fn table_insert(t: &mut SlotTable, key: String, slot: u64)
    ensures
        table_entries(*final(t)) == table_entries(*old(t)).insert(key@, slot),
{
    let _ = t.map.insert(key, slot);
}

/// What is under `key`, by `HashMap::get`.
#[verifier::external_body]
pub(crate) fn table_get(t: &SlotTable, key: &str) -> (r: Option<u64>)
    ensures
        r == if table_entries(*t).dom().contains(key@) {
            Some(table_entries(*t)[key@])
        } else {
            None
        },
{
    t.map.get(key).copied()
}

/// The slot of the last pair in `entries` whose text is `key`.
pub open spec fn lookup_last(entries: Seq<(Seq<char>, Slot)>, key: Seq<char>) -> Option<Slot>
    decreases entries.len(),
{
    if entries.len() == 0 {
        None
    } else if entries.last().0 == key {
        Some(entries.last().1)
    } else {
        lookup_last(entries.drop_last(), key)
    }
}

/// The table holds, for every key, the slot registered last for it.
pub open spec fn holds(table: Map<Seq<char>, u64>, entries: Seq<(Seq<char>, Slot)>) -> bool {
    forall|key: Seq<char>|
        #![trigger table.dom().contains(key)]
        #![trigger lookup_last(entries, key)]
        match lookup_last(entries, key) {
            Some(slot) => table.dom().contains(key) && table[key] == slot.0,
            None => !table.dom().contains(key),
        }
}

/// Matches an input that is, as a whole, a registered string.
pub struct ExactStrategy {
    table: SlotTable,
    entries: Vec<(String, Slot)>,
}

/// Collects the strings of an [`ExactStrategy`].
pub struct ExactStrategyBuilder {
    pub entries: Vec<(String, Slot)>,
}

impl Default for ExactStrategyBuilder {
    fn default() -> (b: Self)
        ensures
            b.entries@.len() == 0,
    {
        ExactStrategyBuilder { entries: Vec::new() }
    }
}

impl Builder for ExactStrategyBuilder {
    type Strategy = ExactStrategy;

    type Error = ();

    open spec fn registered(&self) -> Seq<(Seq<char>, Slot)> {
        pairs(self.entries@)
    }

    /// The exact matcher can always be built.
    open spec fn builds(registered: Seq<(Seq<char>, Slot)>) -> bool {
        true
    }

    open spec fn built(registered: Seq<(Seq<char>, Slot)>, strategy: ExactStrategy) -> bool {
        strategy.registered() == registered
    }

    /// The matcher for what was registered: of two registrations of one
    /// string the later counts.
    fn build(self) -> (r: Result<ExactStrategy, ()>) {
        Ok(ExactStrategy::new(self.entries))
    }

    fn add(&mut self, string: &str, slot: Slot) {
        let text = string.to_owned();
        proof {
            lemma_pairs_push(self.entries@, text, slot);
        }
        self.entries.push((text, slot));
    }
}

/// A table that holds the registered slots still does after one more
/// registration and insertion.
pub proof fn lemma_holds_insert(
    table: Map<Seq<char>, u64>,
    entries: Seq<(Seq<char>, Slot)>,
    key: Seq<char>,
    slot: Slot,
)
    requires
        holds(table, entries),
    ensures
        holds(table.insert(key, slot.0), entries.push((key, slot))),
{
    let after = entries.push((key, slot));
    let next = table.insert(key, slot.0);
    assert(after.drop_last() =~= entries);
    assert forall|k: Seq<char>|
        #![trigger next.dom().contains(k)]
        #![trigger lookup_last(after, k)]
        match lookup_last(after, k) {
            Some(s) => next.dom().contains(k) && next[k] == s.0,
            None => !next.dom().contains(k),
        } by {
        if k != key {
            assert(lookup_last(after, k) == lookup_last(entries, k));
            assert(table.dom().contains(k) == next.dom().contains(k));
        }
    }
}

impl ExactStrategy {
    /// The registered strings and their slots, in the order of registration.
    pub closed spec fn registered(&self) -> Seq<(Seq<char>, Slot)> {
        pairs(self.entries@)
    }

    #[verifier::type_invariant]
    spec fn inv(&self) -> bool {
        holds(table_entries(self.table), pairs(self.entries@))
    }

    /// The matcher for `entries`: of two entries with one string the later
    /// counts.
    pub fn new(entries: Vec<(String, Slot)>) -> (m: Self)
        ensures
            m.registered() == pairs(entries@),
    {
        let mut table = table_new();
        let mut i: usize = 0;
        let ghost all = pairs(entries@);
        assert(all.subrange(0, 0) =~= Seq::<(Seq<char>, Slot)>::empty());
        while i < entries.len()
            invariant
                i <= entries@.len(),
                all == pairs(entries@),
                holds(table_entries(table), all.subrange(0, i as int)),
            decreases entries@.len() - i,
        {
            let ghost before = all.subrange(0, i as int);
            let ghost after = all.subrange(0, i + 1);
            let ghost old_table = table_entries(table);
            let key = entries[i].0.clone();
            let slot = entries[i].1;
            table_insert(&mut table, key, slot.0);
            proof {
                assert(after.drop_last() =~= before);
                assert(after.last() == (key@, slot));
                lemma_holds_insert(old_table, before, key@, slot);
                assert(before.push((key@, slot)) =~= after);
            }
            i = i + 1;
        }
        assert(all.subrange(0, all.len() as int) =~= all);
        ExactStrategy { table, entries }
    }

    /// The registered strings and their slots, in the order of registration.
    pub fn entries(&self) -> (r: &Vec<(String, Slot)>)
        ensures
            pairs(r@) == self.registered(),
    {
        &self.entries
    }
}

impl Matcher for ExactStrategy {
    open spec fn answer(&self, input: Seq<char>) -> Option<Slot> {
        lookup_last(self.registered(), input)
    }

    fn match_(&self, input: &str) -> (r: Option<Slot>) {
        proof {
            use_type_invariant(self);
            let _ = lookup_last(pairs(self.entries@), input@);
        }
        match table_get(&self.table, input) {
            Some(n) => Some(Slot(n)),
            None => None,
        }
    }
}

impl Strategy for ExactStrategy {
    type Builder = ExactStrategyBuilder;

    fn builder() -> (b: ExactStrategyBuilder) {
        ExactStrategyBuilder::default()
    }
}

} // verus!
