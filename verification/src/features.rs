//! The feature table of a region: named `u32` values, each name at most once.

use vstd::prelude::*;

verus! {

/// The value that the last entry named `k` gives, if any.
pub open spec fn feature_value(es: Seq<(Seq<char>, u32)>, k: Seq<char>) -> Option<u32>
    decreases es.len(),
{
    if es.len() == 0 {
        None
    } else if es.last().0 == k {
        Some(es.last().1)
    } else {
        feature_value(es.drop_last(), k)
    }
}

/// The map that a list of entries describes; a later entry replaces an
/// earlier one of the same name.
pub open spec fn map_of_entries(es: Seq<(Seq<char>, u32)>) -> Map<Seq<char>, u32> {
    Map::new(|k: Seq<char>| feature_value(es, k) is Some, |k: Seq<char>| feature_value(es, k).unwrap())
}

/// No name occurs twice.
pub open spec fn distinct_names(es: Seq<(Seq<char>, u32)>) -> bool {
    forall|i: int, j: int| 0 <= i < j < es.len() ==> (#[trigger] es[i]).0 != (#[trigger] es[j]).0
}

/// A table of named values, kept in insertion order, with each name once.
pub struct FeatureMap {
    entries: Vec<(String, u32)>,
}

impl FeatureMap {
    /// The entries in order, each name by its characters.
    pub closed spec fn entry_list(&self) -> Seq<(Seq<char>, u32)> {
        Seq::new(self.entries@.len(), |i: int| (self.entries@[i].0@, self.entries@[i].1))
    }

    #[verifier::type_invariant]
    closed spec fn names_are_distinct(&self) -> bool {
        distinct_names(self.entry_list())
    }

    /// An empty table.
    pub fn new() -> (m: FeatureMap)
        ensures
            m.entry_list() == Seq::<(Seq<char>, u32)>::empty(),
            m@ == Map::<Seq<char>, u32>::empty(),
    {
        let m = FeatureMap { entries: Vec::new() };
        assert(m.entry_list() =~= Seq::<(Seq<char>, u32)>::empty());
        assert(m@ =~= Map::<Seq<char>, u32>::empty());
        m
    }

    /// The number of entries.
    pub fn len(&self) -> (n: usize)
        ensures
            n == self.entry_list().len(),
    {
        self.entries.len()
    }

    /// The name and value of entry `i`.
    pub fn entry(&self, i: usize) -> (e: (&String, u32))
        requires
            i < self.entry_list().len(),
        ensures
            e.0@ == self.entry_list()[i as int].0,
            e.1 == self.entry_list()[i as int].1,
    {
        (&self.entries[i].0, self.entries[i].1)
    }

    /// Sets the value of a name: an existing entry keeps its place, a new
    /// name goes last.
    pub fn insert(&mut self, key: String, value: u32)
        ensures
            final(self)@ == old(self)@.insert(key@, value),
            feature_value(old(self).entry_list(), key@) is Some ==> exists|j: int|
                0 <= j < old(self).entry_list().len() && (#[trigger] old(self).entry_list()[j]).0 == key@
                    && final(self).entry_list() == old(self).entry_list().update(j, (key@, value)),
            feature_value(old(self).entry_list(), key@) is None ==> final(self).entry_list()
                == old(self).entry_list().push((key@, value)),
    {
        proof {
            use_type_invariant(&*self);
        }
        let ghost es = self.entry_list();
        let n = self.entries.len();
        let mut found: Option<usize> = None;
        for j in 0..n
            invariant
                n == es.len(),
                es == self.entry_list(),
                distinct_names(es),
                found matches Some(p) ==> p < n && es[p as int].0 == key@,
                found is None ==> forall|k: int| 0 <= k < j ==> (#[trigger] es[k]).0 != key@,
        {
            if found.is_none() && self.entries[j].0 == key {
                found = Some(j);
            }
        }
        let mut entries = Vec::new();
        std::mem::swap(&mut entries, &mut self.entries);
        match found {
            Some(j) => {
                proof {
                    lemma_update_value(es, j as int, key@, value);
                }
                entries.set(j, (key, value));
                proof {
                    assert(Seq::new(entries@.len(), |i: int| (entries@[i].0@, entries@[i].1))
                        =~= es.update(j as int, (key@, value)));
                    assert(es[j as int].0 == key@);
                }
            },
            None => {
                proof {
                    lemma_absent_value(es, key@);
                }
                entries.push((key, value));
                proof {
                    assert(Seq::new(entries@.len(), |i: int| (entries@[i].0@, entries@[i].1))
                        =~= es.push((key@, value)));
                    assert(distinct_names(es.push((key@, value)))) by {
                        let p = es.push((key@, value));
                        assert forall|a: int, b: int| 0 <= a < b < p.len() implies (#[trigger] p[a]).0
                            != (#[trigger] p[b]).0 by {
                            if b < es.len() {
                                assert(es[a].0 != es[b].0);
                            } else {
                                assert(es[a].0 != key@);
                            }
                        }
                    }
                }
            },
        }
        self.entries = entries;
        proof {
            assert(self@ =~= old(self)@.insert(key@, value));
        }
    }
}

impl View for FeatureMap {
    type V = Map<Seq<char>, u32>;

    open spec fn view(&self) -> Map<Seq<char>, u32> {
        map_of_entries(self.entry_list())
    }
}

/// A name that no entry carries has no value.
proof fn lemma_absent_value(es: Seq<(Seq<char>, u32)>, k: Seq<char>)
    requires
        forall|i: int| 0 <= i < es.len() ==> (#[trigger] es[i]).0 != k,
    ensures
        feature_value(es, k) is None,
        forall|v: u32, k2: Seq<char>| #[trigger]
            feature_value(es.push((k, v)), k2) == if k2 == k {
                Some(v)
            } else {
                feature_value(es, k2)
            },
    decreases es.len(),
{
    if es.len() > 0 {
        lemma_absent_value(es.drop_last(), k);
    }
    assert forall|v: u32, k2: Seq<char>| #[trigger]
        feature_value(es.push((k, v)), k2) == if k2 == k {
            Some(v)
        } else {
            feature_value(es, k2)
        } by {
        assert(es.push((k, v)).drop_last() =~= es);
    }
}

/// Replacing the entry of a name changes the value of that name only.
proof fn lemma_update_value(es: Seq<(Seq<char>, u32)>, j: int, k: Seq<char>, v: u32)
    requires
        distinct_names(es),
        0 <= j < es.len(),
        es[j].0 == k,
    ensures
        feature_value(es, k) is Some,
        distinct_names(es.update(j, (k, v))),
        forall|k2: Seq<char>| #[trigger]
            feature_value(es.update(j, (k, v)), k2) == if k2 == k {
                Some(v)
            } else {
                feature_value(es, k2)
            },
    decreases es.len(),
{
    let u = es.update(j, (k, v));
    assert(distinct_names(u)) by {
        assert forall|a: int, b: int| 0 <= a < b < u.len() implies (#[trigger] u[a]).0 != (
        #[trigger] u[b]).0 by {
            assert(es[a].0 != es[b].0);
        }
    }
    if j == es.len() - 1 {
        assert(u.drop_last() =~= es.drop_last());
        assert forall|k2: Seq<char>| #[trigger]
            feature_value(u, k2) == if k2 == k {
                Some(v)
            } else {
                feature_value(es, k2)
            } by {
            assert(u.last() == (k, v));
        }
    } else {
        let init = es.drop_last();
        assert(distinct_names(init)) by {
            assert forall|a: int, b: int| 0 <= a < b < init.len() implies (#[trigger] init[a]).0
                != (#[trigger] init[b]).0 by {
                assert(es[a].0 != es[b].0);
            }
        }
        lemma_update_value(init, j, k, v);
        assert(u.drop_last() =~= init.update(j, (k, v)));
        assert(es.last().0 != k) by {
            assert(es[j].0 != es[es.len() - 1].0);
        }
        assert forall|k2: Seq<char>| #[trigger]
            feature_value(u, k2) == if k2 == k {
                Some(v)
            } else {
                feature_value(es, k2)
            } by {
            assert(u.last() == es.last());
            assert(feature_value(init.update(j, (k, v)), k2) == if k2 == k {
                Some(v)
            } else {
                feature_value(init, k2)
            });
        }
    }
}

/// Appending an entry sets its name to its value.
pub proof fn lemma_map_of_push(es: Seq<(Seq<char>, u32)>, k: Seq<char>, v: u32)
    ensures
        map_of_entries(es.push((k, v))) == map_of_entries(es).insert(k, v),
{
    let p = es.push((k, v));
    assert(p.drop_last() =~= es);
    assert forall|k2: Seq<char>| #[trigger] feature_value(p, k2) == if k2 == k {
        Some(v)
    } else {
        feature_value(es, k2)
    } by {}
    assert(map_of_entries(p) =~= map_of_entries(es).insert(k, v));
}

} // verus!
