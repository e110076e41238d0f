//! Versioned names of variables and definitions: `x0`, `x1`, ...
use vstd::prelude::*;

use crate::table::Table;
use crate::util::{nat_decimal, usize_to_string};

verus! {

/// The current version of each name that has one.
#[derive(Debug)]
pub struct VersionMap {
    map: Table<String, usize>,
}

impl View for VersionMap {
    type V = Map<Seq<char>, usize>;

    closed spec fn view(&self) -> Map<Seq<char>, usize> {
        self.map.map()
    }
}

/// The current version of `base`: 0 when it has none.
pub open spec fn version_of(m: Map<Seq<char>, usize>, base: Seq<char>) -> nat {
    if m.contains_key(base) {
        m[base] as nat
    } else {
        0
    }
}

/// The name of version `v` of `base`: `base` followed by `v` in decimal.
pub open spec fn versioned(base: Seq<char>, v: nat) -> Seq<char> {
    base + nat_decimal(v)
}

impl VersionMap {
    /// No name has a version yet.
    pub fn new() -> (r: VersionMap)
        ensures
            r@ == Map::<Seq<char>, usize>::empty(),
    {
        VersionMap { map: Table::new() }
    }

    /// The current versioned name of `base`, such as `x0` or `a1`.
    pub fn get_latest(&self, base: &str) -> (r: String)
        ensures
            r@ == versioned(base@, version_of(self@, base@)),
    {
        let key = String::from_str(base);
        let v: usize = match self.map.get(&key) {
            Some(v) => *v,
            None => 0,
        };
        let mut r = key;
        let digits = usize_to_string(v);
        r.append(digits.as_str());
        r
    }

    /// Moves `base` to its next version, and gives the new versioned name.
    pub fn next_version(&mut self, base: &str) -> (r: String)
        requires
            version_of(old(self)@, base@) < usize::MAX,
        ensures
            final(self)@ == old(self)@.insert(base@, (version_of(old(self)@, base@) + 1) as usize),
            r@ == versioned(base@, version_of(old(self)@, base@) + 1),
    {
        let key = String::from_str(base);
        let v: usize = match self.map.get(&key) {
            Some(v) => *v,
            None => 0,
        };
        let next = v + 1;
        let _ = self.map.insert(String::from_str(base), next);
        let mut r = key;
        let digits = usize_to_string(next);
        r.append(digits.as_str());
        r
    }

    /// Forgets every version.
    pub fn reset(&mut self)
        ensures
            final(self)@ == Map::<Seq<char>, usize>::empty(),
    {
        self.map = Table::new();
    }
}

/// After `next_version(base)`, `get_latest(base)` gives the name that
/// `next_version` gave.
pub proof fn law_next_then_latest(m: Map<Seq<char>, usize>, base: Seq<char>)
    requires
        version_of(m, base) < usize::MAX,
    ensures
        versioned(base, version_of(m.insert(base, (version_of(m, base) + 1) as usize), base)) == versioned(
            base,
            version_of(m, base) + 1,
        ),
{
}

/// Moving one name to its next version leaves the versions of the other
/// names as they were.
pub proof fn law_next_keeps_others(m: Map<Seq<char>, usize>, base: Seq<char>, other: Seq<char>)
    requires
        version_of(m, base) < usize::MAX,
        other != base,
    ensures
        version_of(m.insert(base, (version_of(m, base) + 1) as usize), other) == version_of(m, other),
{
}

/// After a reset every name is at version 0.
pub proof fn law_reset_restarts(base: Seq<char>)
    ensures
        version_of(Map::<Seq<char>, usize>::empty(), base) == 0,
{
}

} // verus!
