use vstd::prelude::*;

use crate::watch::{WatchData, WatchDataV};

verus! {

/// The mapping from kernel watch descriptors to the entries they stand
/// for.  Descriptors are compared by identity; each key occurs once.
pub struct WatchRegistry {
    pub entries: Vec<(i32, WatchData)>,
}

/// The map a sequence of descriptor/entry pairs denotes, later pairs
/// taken over earlier ones with the same key.
pub open spec fn map_of(s: Seq<(i32, WatchData)>) -> Map<i32, WatchDataV>
    decreases s.len(),
{
    if s.len() == 0 {
        Map::empty()
    } else {
        map_of(s.drop_last()).insert(s.last().0, s.last().1@)
    }
}

/// Whether some pair of `s` carries the key `k`.
pub open spec fn has_key(s: Seq<(i32, WatchData)>, k: i32) -> bool {
    exists|i: int| 0 <= i < s.len() && s[i].0 == k
}

/// Whether the keys of `s` are pairwise distinct.
pub open spec fn unique_keys(s: Seq<(i32, WatchData)>) -> bool {
    forall|i: int, j: int| 0 <= i < j < s.len() ==> s[i].0 != s[j].0
}

pub proof fn lemma_map_of_has_key(s: Seq<(i32, WatchData)>, k: i32)
    ensures
        map_of(s).contains_key(k) <==> has_key(s, k),
    decreases s.len(),
{
    if s.len() > 0 {
        lemma_map_of_has_key(s.drop_last(), k);
        if has_key(s.drop_last(), k) {
            let i = choose|i: int| 0 <= i < s.drop_last().len() && s.drop_last()[i].0 == k;
            assert(s[i].0 == k);
        }
        if has_key(s, k) && s.last().0 != k {
            let i = choose|i: int| 0 <= i < s.len() && s[i].0 == k;
            assert(s.drop_last()[i].0 == k);
        }
    }
}

pub proof fn lemma_map_of_get(s: Seq<(i32, WatchData)>, k: i32, i: int)
    requires
        unique_keys(s),
        0 <= i < s.len(),
        s[i].0 == k,
    ensures
        map_of(s).contains_key(k),
        map_of(s)[k] == s[i].1@,
    decreases s.len(),
{
    if i == s.len() - 1 {
    } else {
        assert(s.drop_last()[i] == s[i]);
        lemma_map_of_get(s.drop_last(), k, i);
        assert(s.last().0 != k);
    }
}

pub proof fn lemma_map_of_remove(s: Seq<(i32, WatchData)>, i: int)
    requires
        unique_keys(s),
        0 <= i < s.len(),
    ensures
        map_of(s.remove(i)) == map_of(s).remove(s[i].0),
    decreases s.len(),
{
    let k = s[i].0;
    if i == s.len() - 1 {
        assert(s.remove(i) =~= s.drop_last());
        lemma_map_of_has_key(s.drop_last(), k);
        assert(forall|j: int|
            0 <= j < s.drop_last().len() ==> (#[trigger] s.drop_last()[j]).0 == s[j].0);
        assert(!has_key(s.drop_last(), k));
        assert(map_of(s.drop_last()) =~= map_of(s).remove(k));
    } else {
        let t = s.remove(i);
        assert(t =~= s.drop_last().remove(i).push(s.last()));
        assert(t.drop_last() =~= s.drop_last().remove(i));
        assert(t.last() == s.last());
        assert(forall|a: int, b: int|
            0 <= a < b < s.drop_last().len() ==> (#[trigger] s.drop_last()[a]).0 != (
            #[trigger] s.drop_last()[b]).0);
        lemma_map_of_remove(s.drop_last(), i);
        assert(map_of(t) == map_of(s.drop_last()).remove(k).insert(s.last().0, s.last().1@));
        assert(s.last().0 != k);
        assert(map_of(s.drop_last()).remove(k).insert(s.last().0, s.last().1@) =~= map_of(
            s,
        ).remove(k));
    }
}

impl WatchRegistry {
    /// The entries in store order, as views.
    pub open spec fn entries_view(&self) -> Seq<WatchDataV> {
        self.entries@.map(|i: int, p: (i32, WatchData)| p.1@)
    }

    /// The descriptor of the entry at position `i`.
    pub open spec fn key_at(&self, i: int) -> i32 {
        self.entries@[i].0
    }

    /// Each descriptor is registered once.
    pub open spec fn wf(&self) -> bool {
        unique_keys(self.entries@)
    }

    /// An empty registry.
    pub fn new() -> (r: WatchRegistry)
        ensures
            r@ == Map::<i32, WatchDataV>::empty(),
            r.entries_view() =~= Seq::<WatchDataV>::empty(),
            r.wf(),
    {
        let r = WatchRegistry { entries: Vec::new() };
        proof {
            assert(r.entries_view() =~= Seq::<WatchDataV>::empty());
        }
        r
    }

    pub fn len(&self) -> (r: usize)
        ensures
            r == self.entries_view().len(),
    {
        self.entries.len()
    }

    /// The descriptor and a copy of the entry at position `i`.
    pub fn entry_at(&self, i: usize) -> (r: (i32, WatchData))
        requires
            i < self.entries_view().len(),
        ensures
            r.0 == self.key_at(i as int),
            r.1@ == self.entries_view()[i as int],
    {
        let wd = self.entries[i].0;
        let w = self.entries[i].1.duplicate();
        (wd, w)
    }

    /// Whether `wd` is registered.
    pub fn contains_key(&self, wd: i32) -> (r: bool)
        ensures
            r == self@.contains_key(wd),
    {
        proof {
            lemma_map_of_has_key(self.entries@, wd);
        }
        let mut i: usize = 0;
        while i < self.entries.len()
            invariant
                i <= self.entries@.len(),
                forall|j: int| 0 <= j < i ==> (#[trigger] self.entries@[j]).0 != wd,
            decreases self.entries@.len() - i,
        {
            if self.entries[i].0 == wd {
                proof {
                    lemma_map_of_has_key(self.entries@, wd);
                    assert(self.entries@[i as int].0 == wd);
                }
                return true;
            }
            i = i + 1;
        }
        false
    }

    /// The entry registered under `wd`, if any.
    pub fn get(&self, wd: i32) -> (r: Option<&WatchData>)
        requires
            self.wf(),
        ensures
            match r {
                Some(w) => self@.contains_key(wd) && w@ == self@[wd],
                None => !self@.contains_key(wd),
            },
    {
        proof {
            lemma_map_of_has_key(self.entries@, wd);
        }
        let mut i: usize = 0;
        while i < self.entries.len()
            invariant
                self.wf(),
                i <= self.entries@.len(),
                forall|j: int| 0 <= j < i ==> (#[trigger] self.entries@[j]).0 != wd,
            decreases self.entries@.len() - i,
        {
            if self.entries[i].0 == wd {
                proof {
                    lemma_map_of_get(self.entries@, wd, i as int);
                }
                return Some(&self.entries[i].1);
            }
            i = i + 1;
        }
        None
    }

    /// Register `w` under the fresh descriptor `wd`.
    pub fn insert(&mut self, wd: i32, w: WatchData)
        requires
            old(self).wf(),
            !old(self)@.contains_key(wd),
        ensures
            final(self)@ == old(self)@.insert(wd, w@),
            final(self).entries_view() =~= old(self).entries_view().push(w@),
            final(self).wf(),
    {
        proof {
            lemma_map_of_has_key(self.entries@, wd);
        }
        let ghost s0 = self.entries@;
        self.entries.push((wd, w));
        proof {
            assert(self.entries@.drop_last() =~= s0);
            assert(forall|j: int| 0 <= j < s0.len() ==> (#[trigger] self.entries@[j]) == s0[j]);
            assert(self.entries_view() =~= old(self).entries_view().push(w@));
        }
    }

    /// Unregister and hand back the entry under `wd`, if any.
    pub fn remove(&mut self, wd: i32) -> (r: Option<WatchData>)
        requires
            old(self).wf(),
        ensures
            final(self).wf(),
            match r {
                Some(w) => old(self)@.contains_key(wd) && w@ == old(self)@[wd] && final(self)@
                    == old(self)@.remove(wd) && (exists|i: int|
                    0 <= i < old(self).entries_view().len() && old(self).key_at(i) == wd
                        && final(self).entries_view() =~= old(self).entries_view().remove(i)),
                None => !old(self)@.contains_key(wd) && final(self)@ == old(self)@
                    && final(self).entries_view() == old(self).entries_view(),
            },
    {
        proof {
            lemma_map_of_has_key(self.entries@, wd);
        }
        let ghost s0 = self.entries@;
        let mut i: usize = 0;
        while i < self.entries.len()
            invariant
                self.wf(),
                self.entries@ == s0,
                s0 == old(self).entries@,
                i <= self.entries@.len(),
                forall|j: int| 0 <= j < i ==> (#[trigger] self.entries@[j]).0 != wd,
            decreases self.entries@.len() - i,
        {
            if self.entries[i].0 == wd {
                proof {
                    lemma_map_of_get(s0, wd, i as int);
                    lemma_map_of_remove(s0, i as int);
                }
                let p = self.entries.remove(i);
                proof {
                    assert(self.entries@ =~= s0.remove(i as int));
                    assert(self.entries_view() =~= old(self).entries_view().remove(i as int));
                    assert(old(self).key_at(i as int) == wd);
                }
                return Some(p.1);
            }
            i = i + 1;
        }
        None
    }

    /// Drop every registration.
    pub fn clear(&mut self)
        ensures
            final(self)@ == Map::<i32, WatchDataV>::empty(),
            final(self).entries_view() =~= Seq::<WatchDataV>::empty(),
            final(self).wf(),
    {
        self.entries = Vec::new();
        proof {
            assert(self.entries_view() =~= Seq::<WatchDataV>::empty());
        }
    }
}

impl View for WatchRegistry {
    type V = Map<i32, WatchDataV>;

    open spec fn view(&self) -> Map<i32, WatchDataV> {
        map_of(self.entries@)
    }
}

} // verus!
