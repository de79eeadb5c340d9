//! The standings table: a mapping from entity name to rating payload.
//!
//! The table is a vector of `(name, rating)` entries with pairwise-distinct
//! names, viewed as a `Map<Seq<char>, u32>`. Insertion order is kept, which
//! makes enumeration deterministic; the mapping itself does not depend on it.

use vstd::prelude::*;

verus! {

/// The mapping denoted by a sequence of entries: later entries shadow
/// earlier ones (irrelevant under the table's distinct-names invariant).
spec fn map_of(entries: Seq<(String, u32)>) -> Map<Seq<char>, u32>
    decreases entries.len(),
{
    if entries.len() == 0 {
        Map::empty()
    } else {
        map_of(entries.drop_last()).insert(entries.last().0@, entries.last().1)
    }
}

proof fn lemma_map_of_at(s: Seq<(String, u32)>, i: int)
    requires
        0 <= i < s.len(),
        forall|j: int| i < j < s.len() ==> s[j].0@ != s[i].0@,
    ensures
        map_of(s).contains_key(s[i].0@),
        map_of(s)[s[i].0@] == s[i].1,
    decreases s.len(),
{
    if i == s.len() - 1 {
    } else {
        let sp = s.drop_last();
        assert(forall|j: int| 0 <= j < sp.len() ==> sp[j] == s[j]);
        lemma_map_of_at(sp, i);
        assert(s.last().0@ != s[i].0@);
    }
}

proof fn lemma_map_of_absent(s: Seq<(String, u32)>, k: Seq<char>)
    requires
        forall|i: int| 0 <= i < s.len() ==> s[i].0@ != k,
    ensures
        !map_of(s).contains_key(k),
    decreases s.len(),
{
    if s.len() == 0 {
    } else {
        let sp = s.drop_last();
        assert(forall|i: int| 0 <= i < sp.len() ==> sp[i] == s[i]);
        lemma_map_of_absent(sp, k);
        assert(s[s.len() - 1].0@ != k);
    }
}

proof fn lemma_map_of_covered(s: Seq<(String, u32)>, k: Seq<char>)
    requires
        map_of(s).contains_key(k),
    ensures
        exists|i: int| 0 <= i < s.len() && s[i].0@ == k,
    decreases s.len(),
{
    if s.len() == 0 {
    } else if s.last().0@ == k {
        assert(s[s.len() - 1].0@ == k);
    } else {
        let sp = s.drop_last();
        lemma_map_of_covered(sp, k);
        let i = choose|i: int| 0 <= i < sp.len() && sp[i].0@ == k;
        assert(s[i].0@ == k);
    }
}

proof fn lemma_map_of_update(s: Seq<(String, u32)>, i: int, p: (String, u32))
    requires
        0 <= i < s.len(),
        p.0@ == s[i].0@,
        forall|j: int| i < j < s.len() ==> s[j].0@ != s[i].0@,
    ensures
        map_of(s.update(i, p)) == map_of(s).insert(p.0@, p.1),
    decreases s.len(),
{
    let u = s.update(i, p);
    if i == s.len() - 1 {
        assert(u.drop_last() =~= s.drop_last());
        assert(u.last() == p);
        assert(map_of(s).insert(p.0@, p.1) =~= map_of(s.drop_last()).insert(p.0@, p.1));
    } else {
        let sp = s.drop_last();
        assert(forall|j: int| 0 <= j < sp.len() ==> sp[j] == s[j]);
        assert(u.drop_last() =~= sp.update(i, p));
        assert(u.last() == s.last());
        lemma_map_of_update(sp, i, p);
        assert(s[s.len() - 1].0@ != p.0@);
        assert(map_of(sp).insert(p.0@, p.1).insert(s.last().0@, s.last().1) =~= map_of(
            sp,
        ).insert(s.last().0@, s.last().1).insert(p.0@, p.1));
    }
}

/// A standings table: entity names mapped to opaque rating payloads.
#[derive(Debug)]
pub struct Standings {
    entries: Vec<(String, u32)>,
}

impl View for Standings {
    type V = Map<Seq<char>, u32>;

    closed spec fn view(&self) -> Map<Seq<char>, u32> {
        map_of(self.entries@)
    }
}

impl Standings {
    /// Well-formed: entity names are pairwise distinct.
    pub closed spec fn wf(&self) -> bool {
        forall|i: int, j: int|
            0 <= i < j < self.entries@.len() ==> self.entries@[i].0@ != self.entries@[j].0@
    }

    /// An empty table.
    pub fn new() -> (table: Standings)
        ensures
            table.wf(),
            table@ == Map::<Seq<char>, u32>::empty(),
    {
        Standings { entries: Vec::new() }
    }

    /// The rating payload recorded for `name`, if any.
    pub fn get(&self, name: &String) -> (rating: Option<u32>)
        requires
            self.wf(),
        ensures
            match rating {
                Some(v) => self@.contains_key(name@) && v == self@[name@],
                None => !self@.contains_key(name@),
            },
    {
        let n = self.entries.len();
        let mut i: usize = 0;
        while i < n
            invariant
                self.wf(),
                n == self.entries@.len(),
                i <= n,
                forall|j: int| 0 <= j < i ==> self.entries@[j].0@ != name@,
            decreases n - i,
        {
            if self.entries[i].0 == *name {
                proof {
                    lemma_map_of_at(self.entries@, i as int);
                }
                return Some(self.entries[i].1);
            }
            i = i + 1;
        }
        proof {
            lemma_map_of_absent(self.entries@, name@);
        }
        None
    }

    /// Records `rating` for `name`: replaces the existing entry, or appends a
    /// new one. The mapping afterwards is the old mapping with `name` bound
    /// to `rating`.
    pub fn set(&mut self, name: &String, rating: u32)
        requires
            old(self).wf(),
        ensures
            final(self).wf(),
            final(self)@ == old(self)@.insert(name@, rating),
    {
        let n = self.entries.len();
        let mut i: usize = 0;
        while i < n
            invariant
                *self == *old(self),
                self.wf(),
                n == self.entries@.len(),
                i <= n,
                forall|j: int| 0 <= j < i ==> self.entries@[j].0@ != name@,
            decreases n - i,
        {
            if self.entries[i].0 == *name {
                let pair = self.entries.remove(i);
                self.entries.insert(i, (pair.0, rating));
                proof {
                    let s0 = old(self).entries@;
                    assert(self.entries@ =~= s0.update(i as int, (pair.0, rating)));
                    lemma_map_of_update(s0, i as int, (pair.0, rating));
                    assert(forall|j: int|
                        0 <= j < self.entries@.len() ==> self.entries@[j].0@ == s0[j].0@);
                }
                return ;
            }
            i = i + 1;
        }
        self.entries.push((name.clone(), rating));
        proof {
            assert(self.entries@.drop_last() =~= old(self).entries@);
            assert(self.entries@.last().0@ == name@);
            assert(forall|j: int|
                0 <= j < old(self).entries@.len() ==> self.entries@[j] == old(
                    self,
                ).entries@[j]);
        }
    }

    /// A table with the same mapping, by copying every entry.
    pub fn duplicate(&self) -> (copy: Standings)
        ensures
            copy@ == self@,
            self.wf() ==> copy.wf(),
    {
        let n = self.entries.len();
        let mut entries: Vec<(String, u32)> = Vec::new();
        let mut i: usize = 0;
        while i < n
            invariant
                n == self.entries@.len(),
                i <= n,
                entries@.len() == i,
                forall|j: int| 0 <= j < i ==> entries@[j] == self.entries@[j],
            decreases n - i,
        {
            entries.push((self.entries[i].0.clone(), self.entries[i].1));
            i = i + 1;
        }
        proof {
            assert(entries@ =~= self.entries@);
        }
        Standings { entries }
    }

    /// Every `(name, rating)` binding of the table, in insertion order: each
    /// returned pair is a binding of the mapping, the names are pairwise
    /// distinct, and every name of the mapping occurs.
    pub fn pairs(&self) -> (bindings: Vec<(String, u32)>)
        requires
            self.wf(),
        ensures
            forall|i: int|
                0 <= i < bindings@.len() ==> self@.contains_key(#[trigger] bindings@[i].0@)
                    && self@[bindings@[i].0@] == bindings@[i].1,
            forall|i: int, j: int|
                0 <= i < j < bindings@.len() ==> bindings@[i].0@ != bindings@[j].0@,
            forall|k: Seq<char>|
                self@.contains_key(k) ==> exists|i: int|
                    0 <= i < bindings@.len() && #[trigger] bindings@[i].0@ == k,
    {
        let n = self.entries.len();
        let mut bindings: Vec<(String, u32)> = Vec::new();
        let mut i: usize = 0;
        while i < n
            invariant
                self.wf(),
                n == self.entries@.len(),
                i <= n,
                bindings@.len() == i,
                forall|j: int|
                    0 <= j < i ==> (#[trigger] bindings@[j]).0@ == self.entries@[j].0@
                        && bindings@[j].1 == self.entries@[j].1,
            decreases n - i,
        {
            bindings.push((self.entries[i].0.clone(), self.entries[i].1));
            i = i + 1;
        }
        proof {
            assert forall|i: int|
                0 <= i < bindings@.len() implies self@.contains_key(
                #[trigger] bindings@[i].0@,
            ) && self@[bindings@[i].0@] == bindings@[i].1 by {
                lemma_map_of_at(self.entries@, i);
            }
            assert forall|k: Seq<char>| self@.contains_key(k) implies exists|i: int|
                0 <= i < bindings@.len() && #[trigger] bindings@[i].0@ == k by {
                lemma_map_of_covered(self.entries@, k);
                let i = choose|i: int| 0 <= i < self.entries@.len() && self.entries@[i].0@ == k;
                assert(bindings@[i].0@ == k);
            }
        }
        bindings
    }
}

} // verus!
