//! The persistent record of document digests from earlier runs.
use vstd::prelude::*;

verus! {

/// The digest recorded for `k`: the last entry under that key wins.
pub open spec fn lookup(s: Seq<(String, u64)>, k: Seq<char>) -> Option<u64>
    decreases s.len(),
{
    if s.len() == 0 {
        None
    } else if s.last().0@ == k {
        Some(s.last().1)
    } else {
        lookup(s.drop_last(), k)
    }
}

/// A table from names to 64-bit digests.
#[derive(Debug)]
pub struct DigestTable {
    pub entries: Vec<(String, u64)>,
}

impl DigestTable {
    pub open spec fn get_spec(&self, k: Seq<char>) -> Option<u64> {
        lookup(self.entries@, k)
    }

    /// The table as a map.
    pub open spec fn as_map(&self) -> Map<Seq<char>, u64> {
        Map::new(|k: Seq<char>| lookup(self.entries@, k) is Some, |k: Seq<char>| lookup(self.entries@, k)->0)
    }

    pub fn new() -> (r: DigestTable)
        ensures
            forall|k: Seq<char>| r.get_spec(k) is None,
    {
        DigestTable { entries: Vec::new() }
    }

    /// The digest recorded under `k`, if any.
    pub fn get(&self, k: &String) -> (r: Option<u64>)
        ensures
            r == self.get_spec(k@),
    {
        let mut i = self.entries.len();
        assert(self.entries@.take(i as int) =~= self.entries@);
        while i > 0
            invariant
                0 <= i <= self.entries@.len(),
                lookup(self.entries@.take(i as int), k@) == lookup(self.entries@, k@),
            decreases i,
        {
            proof {
                assert(self.entries@.take(i as int).drop_last() =~= self.entries@.take(i - 1));
            }
            if self.entries[i - 1].0 == *k {
                return Some(self.entries[i - 1].1);
            }
            i = i - 1;
        }
        assert(self.entries@.take(0) =~= Seq::<(String, u64)>::empty());
        None
    }

    /// Records `v` under `k`, replacing what was recorded before.
    pub fn insert(&mut self, k: String, v: u64)
        ensures
            forall|q: Seq<char>|
                #![trigger final(self).get_spec(q)]
                final(self).get_spec(q) == if q == k@ {
                    Some(v)
                } else {
                    old(self).get_spec(q)
                },
    {
        let ghost before = self.entries@;
        self.entries.push((k, v));
        assert(self.entries@.drop_last() =~= before);
    }
}

/// Digests of every document kind, from the last run.
#[derive(Debug)]
pub struct BuildCache {
    pub import_hashes: DigestTable,
    pub fn_hashes: DigestTable,
    pub build_hashes: DigestTable,
    pub deploy_hashes: DigestTable,
}

impl BuildCache {
    /// A cache that records nothing.
    pub fn new() -> (r: BuildCache)
        ensures
            forall|k: Seq<char>| r.import_hashes.get_spec(k) is None,
            forall|k: Seq<char>| r.fn_hashes.get_spec(k) is None,
            forall|k: Seq<char>| r.build_hashes.get_spec(k) is None,
            forall|k: Seq<char>| r.deploy_hashes.get_spec(k) is None,
    {
        BuildCache {
            import_hashes: DigestTable::new(),
            fn_hashes: DigestTable::new(),
            build_hashes: DigestTable::new(),
            deploy_hashes: DigestTable::new(),
        }
    }
}

} // verus!
