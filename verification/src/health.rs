//! Hit points, kept sparsely: an object at full health has no entry.
//!
//! The kind of an object defines its full hit points. The table holds an
//! entry only for an object whose hit points differ from that, and drops the
//! entry again once the object is back at full health, so memory grows with
//! the number of damaged objects, not with the size of the world.

use std::collections::BTreeMap;
use vstd::prelude::*;
use crate::block::HitPoints;
use crate::location::PackedXYZ32;

verus! {

/// The hit points of the object at `key`, given the table's entries and the
/// full hit points of the object's kind.
pub open spec fn health(entries: Map<u16, HitPoints>, key: u16, full: u16) -> u16 {
    if entries.contains_key(key) {
        entries[key].0
    } else {
        full
    }
}

/// The entries after the object at `key` was set to `value` hit points.
pub open spec fn with_health(entries: Map<u16, HitPoints>, key: u16, value: u16, full: u16) -> Map<
    u16,
    HitPoints,
> {
    if value == full {
        entries.remove(key)
    } else {
        entries.insert(key, HitPoints(value))
    }
}

/// The hit points of the damaged objects of one chunk, by packed location.
pub struct HealthTable {
    damaged: BTreeMap<u16, HitPoints>,
}

impl View for HealthTable {
    type V = Map<u16, HitPoints>;

    closed spec fn view(&self) -> Map<u16, HitPoints> {
        self.damaged@
    }
}

impl HealthTable {
    /// A table in which every object is at full health.
    pub fn new() -> (table: HealthTable)
        ensures
            table@ == Map::<u16, HitPoints>::empty(),
    {
        HealthTable { damaged: BTreeMap::new() }
    }

    /// Number of objects that have an entry.
    pub fn len(&self) -> (n: usize)
        ensures
            n == self@.len(),
    {
        self.damaged.len()
    }

    /// The hit points of the object at `location`, whose kind has `full` hit
    /// points.
    pub fn hit_points(&self, location: PackedXYZ32, full: u16) -> (hp: u16)
        ensures
            hp == health(self@, location.bits(), full),
    {
        let key = location.to_bits();
        match self.damaged.get(&key) {
            Some(entry) => entry.0,
            None => full,
        }
    }

    /// Sets the hit points of the object at `location`. At `full` hit points
    /// the entry is dropped, otherwise it is written.
    pub fn set_hit_points(&mut self, location: PackedXYZ32, value: u16, full: u16)
        ensures
            final(self)@ == with_health(old(self)@, location.bits(), value, full),
    {
        let key = location.to_bits();
        if value == full {
            let _ = self.damaged.remove(&key);
        } else {
            let _ = self.damaged.insert(key, HitPoints(value));
        }
    }

    /// Takes `amount` hit points from the object at `location`, down to zero
    /// at most, and returns what is left.
    pub fn damage(&mut self, location: PackedXYZ32, amount: u16, full: u16) -> (left: u16)
        ensures
            left == if health(old(self)@, location.bits(), full) >= amount {
                health(old(self)@, location.bits(), full) - amount
            } else {
                0
            },
            final(self)@ == with_health(old(self)@, location.bits(), left, full),
    {
        let now = self.hit_points(location, full);
        let left = if now >= amount {
            now - amount
        } else {
            0
        };
        self.set_hit_points(location, left, full);
        left
    }

    /// Gives `amount` hit points back to the object at `location`, up to
    /// `full` at most, and returns what it then has.
    pub fn heal(&mut self, location: PackedXYZ32, amount: u16, full: u16) -> (now: u16)
        ensures
            now == if health(old(self)@, location.bits(), full) + amount >= full {
                full
            } else {
                (health(old(self)@, location.bits(), full) + amount) as u16
            },
            final(self)@ == with_health(old(self)@, location.bits(), now, full),
    {
        let before = self.hit_points(location, full);
        let now = if before >= full || amount >= full - before {
            full
        } else {
            before + amount
        };
        self.set_hit_points(location, now, full);
        now
    }
}

/// Reading back what was set gives the value that was set, and the table has
/// an entry for the object exactly when that value is not full health.
pub proof fn lemma_health_after_set(entries: Map<u16, HitPoints>, key: u16, value: u16, full: u16)
    ensures
        health(with_health(entries, key, value, full), key, full) == value,
        with_health(entries, key, value, full).contains_key(key) == (value != full),
        forall|other: u16|
            other != key ==> with_health(entries, key, value, full).contains_key(other)
                == entries.contains_key(other) && health(
                with_health(entries, key, value, full),
                other,
                full,
            ) == health(entries, other, full),
{
}

} // verus!
