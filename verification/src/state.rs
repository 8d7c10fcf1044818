//! The in-process link table: a mapping from alias to link record, the one
//! surface shared by request handlers (readers) and the replication worker
//! (sole writer). Modeled as a `Map<Seq<char>, Seq<char>>` from alias to
//! URL template.

use vstd::prelude::*;
use crate::rustlink::Rustlink;
use crate::strings::str_eq;

verus! {

/// The (alias, url) views of a sequence of records.
pub open spec fn entry_views(s: Seq<Rustlink>) -> Seq<(Seq<char>, Seq<char>)> {
    s.map(|i: int, l: Rustlink| (l.alias@, l.url@))
}

/// No alias occurs twice.
pub open spec fn unique_aliases(s: Seq<(Seq<char>, Seq<char>)>) -> bool {
    forall|i: int, j: int| 0 <= i < j < s.len() ==> s[i].0 != s[j].0
}

/// The mapping described by a sequence of (alias, url) pairs; a later pair
/// for the same alias wins.
pub open spec fn map_of_entries(s: Seq<(Seq<char>, Seq<char>)>) -> Map<Seq<char>, Seq<char>>
    decreases s.len(),
{
    if s.len() == 0 {
        Map::empty()
    } else {
        map_of_entries(s.drop_last()).insert(s.last().0, s.last().1)
    }
}

/// An alias is in the mapping exactly when some pair carries it.
pub proof fn lemma_map_of_contains(s: Seq<(Seq<char>, Seq<char>)>, a: Seq<char>)
    ensures
        map_of_entries(s).contains_key(a) <==> exists|i: int| 0 <= i < s.len() && s[i].0 == a,
    decreases s.len(),
{
    if s.len() > 0 {
        lemma_map_of_contains(s.drop_last(), a);
        if s.last().0 == a {
            assert(s[s.len() - 1].0 == a);
        } else if map_of_entries(s).contains_key(a) {
            let i = choose|i: int| 0 <= i < s.drop_last().len() && s.drop_last()[i].0 == a;
            assert(s[i].0 == a);
        } else if exists|i: int| 0 <= i < s.len() && s[i].0 == a {
            let i = choose|i: int| 0 <= i < s.len() && s[i].0 == a;
            assert(s.drop_last()[i].0 == a);
        }
    }
}

/// A pair not followed by another pair with the same alias gives that
/// alias's value in the mapping.
pub proof fn lemma_map_of_index(s: Seq<(Seq<char>, Seq<char>)>, i: int)
    requires
        0 <= i < s.len(),
        forall|j: int| i < j < s.len() ==> s[j].0 != s[i].0,
    ensures
        map_of_entries(s).contains_key(s[i].0),
        map_of_entries(s)[s[i].0] == s[i].1,
    decreases s.len(),
{
    if i == s.len() - 1 {
    } else {
        assert(forall|j: int| i < j < s.drop_last().len() ==> s.drop_last()[j].0 != s.drop_last()[i].0);
        lemma_map_of_index(s.drop_last(), i);
        assert(s.last().0 != s[i].0);
    }
}

/// Replacing the url of the pair at `i` (aliases unique) updates exactly
/// that alias in the mapping.
pub proof fn lemma_map_of_update(s: Seq<(Seq<char>, Seq<char>)>, i: int, v: Seq<char>)
    requires
        unique_aliases(s),
        0 <= i < s.len(),
    ensures
        map_of_entries(s.update(i, (s[i].0, v))) == map_of_entries(s).insert(s[i].0, v),
    decreases s.len(),
{
    let t = s.update(i, (s[i].0, v));
    if i == s.len() - 1 {
        assert(t.drop_last() =~= s.drop_last());
        assert(map_of_entries(t) =~= map_of_entries(s).insert(s[i].0, v));
    } else {
        assert(t.drop_last() =~= s.drop_last().update(i, (s[i].0, v)));
        assert(s.drop_last()[i] == s[i]);
        lemma_map_of_update(s.drop_last(), i, v);
        // the final inserts commute: position i and the last pair differ in alias
        assert(s.last().0 != s[i].0);
        assert(map_of_entries(t) =~= map_of_entries(s).insert(s[i].0, v));
    }
}

/// Removing the pair at `i` (aliases unique) removes exactly that alias
/// from the mapping.
pub proof fn lemma_map_of_remove(s: Seq<(Seq<char>, Seq<char>)>, i: int)
    requires
        unique_aliases(s),
        0 <= i < s.len(),
    ensures
        map_of_entries(s.remove(i)) == map_of_entries(s).remove(s[i].0),
    decreases s.len(),
{
    if i == s.len() - 1 {
        assert(s.remove(i) =~= s.drop_last());
        lemma_map_of_contains(s.drop_last(), s[i].0);
        assert(forall|j: int| 0 <= j < s.drop_last().len() ==> s.drop_last()[j].0 != s[i].0);
        assert(!map_of_entries(s.drop_last()).contains_key(s[i].0));
        assert(map_of_entries(s.remove(i)) =~= map_of_entries(s).remove(s[i].0));
    } else {
        assert(s.remove(i).drop_last() =~= s.drop_last().remove(i));
        assert(s.remove(i).last() == s.last());
        assert(s.drop_last()[i] == s[i]);
        lemma_map_of_remove(s.drop_last(), i);
        assert(s.last().0 != s[i].0);
        assert(map_of_entries(s.remove(i)) =~= map_of_entries(s).remove(s[i].0));
    }
}

/// Concurrent mapping from alias to link record (the lock around it lives
/// with the embedding program; a single writer is assumed there).
pub struct LinkTable {
    entries: Vec<Rustlink>,
}

impl View for LinkTable {
    type V = Map<Seq<char>, Seq<char>>;

    closed spec fn view(&self) -> Map<Seq<char>, Seq<char>> {
        map_of_entries(entry_views(self.entries@))
    }
}

impl LinkTable {
    /// The table's entries in storage order, as (alias, url) views.
    pub closed spec fn entries_view(&self) -> Seq<(Seq<char>, Seq<char>)> {
        entry_views(self.entries@)
    }

    /// Internal invariant: at most one entry per alias.
    pub closed spec fn wf(&self) -> bool {
        unique_aliases(self.entries_view())
    }

    /// The mapping is exactly the one described by the entries.
    pub proof fn lemma_view_entries(&self)
        ensures
            self@ == map_of_entries(self.entries_view()),
    {
    }

    /// An empty table.
    pub fn new() -> (t: LinkTable)
        ensures
            t@ == Map::<Seq<char>, Seq<char>>::empty(),
            t.entries_view() == Seq::<(Seq<char>, Seq<char>)>::empty(),
            t.wf(),
    {
        let t = LinkTable { entries: Vec::new() };
        proof {
            assert(entry_views(t.entries@) =~= Seq::<(Seq<char>, Seq<char>)>::empty());
        }
        t
    }

    /// Number of entries.
    pub fn len(&self) -> (n: usize)
        ensures
            n == self.entries_view().len(),
    {
        self.entries.len()
    }

    /// Index of the entry holding `alias`, if any.
    fn find(&self, alias: &str) -> (r: Option<usize>)
        ensures
            match r {
                Some(i) => {
                    &&& i < self.entries_view().len()
                    &&& self.entries_view()[i as int].0 == alias@
                    &&& forall|j: int| 0 <= j < i ==> self.entries_view()[j].0 != alias@
                },
                None => forall|j: int|
                    0 <= j < self.entries_view().len() ==> self.entries_view()[j].0 != alias@,
            },
    {
        let n = self.entries.len();
        let mut i: usize = 0;
        while i < n
            invariant
                n == self.entries@.len(),
                i <= n,
                forall|j: int| 0 <= j < i ==> self.entries_view()[j].0 != alias@,
            decreases n - i,
        {
            if str_eq(self.entries[i].alias.as_str(), alias) {
                return Some(i);
            }
            i = i + 1;
        }
        None
    }

    /// Looks an alias up. Returns the record exactly when the alias is in
    /// the table; an alias that is absent yields `None`.
    pub fn get(&self, alias: &str) -> (r: Option<Rustlink>)
        requires
            self.wf(),
        ensures
            match r {
                Some(l) => {
                    &&& self@.contains_key(alias@)
                    &&& l.alias@ == alias@
                    &&& l.url@ == self@[alias@]
                },
                None => !self@.contains_key(alias@),
            },
    {
        match self.find(alias) {
            Some(i) => {
                proof {
                    lemma_map_of_index(self.entries_view(), i as int);
                }
                Some(self.entries[i].duplicate())
            },
            None => {
                proof {
                    lemma_map_of_contains(self.entries_view(), alias@);
                }
                None
            },
        }
    }

    /// Inserts or replaces the record under its alias.
    pub fn upsert(&mut self, link: Rustlink)
        requires
            old(self).wf(),
        ensures
            final(self)@ == old(self)@.insert(link.alias@, link.url@),
            final(self).wf(),
            !old(self)@.contains_key(link.alias@) ==> final(self).entries_view()
                == old(self).entries_view().push((link.alias@, link.url@)),
            old(self)@.contains_key(link.alias@) ==> final(self).entries_view().len()
                == old(self).entries_view().len(),
    {
        let ghost s = self.entries_view();
        match self.find(link.alias.as_str()) {
            Some(i) => {
                let ghost a = link.alias@;
                let ghost v = link.url@;
                self.entries[i] = link;
                proof {
                    assert(self.entries_view() =~= s.update(i as int, (s[i as int].0, v)));
                    lemma_map_of_update(s, i as int, v);
                    lemma_map_of_contains(s, a);
                    assert(forall|p: int, q: int|
                        0 <= p < q < self.entries_view().len() ==> self.entries_view()[p].0
                            != self.entries_view()[q].0);
                }
            },
            None => {
                let ghost a = link.alias@;
                let ghost v = link.url@;
                self.entries.push(link);
                proof {
                    assert(self.entries_view() =~= s.push((a, v)));
                    assert(self.entries_view().drop_last() =~= s);
                    lemma_map_of_contains(s, a);
                    assert(forall|p: int, q: int|
                        0 <= p < q < self.entries_view().len() ==> self.entries_view()[p].0
                            != self.entries_view()[q].0);
                }
            },
        }
    }

    /// Removes the record under `alias`, if any.
    pub fn remove(&mut self, alias: &str)
        requires
            old(self).wf(),
        ensures
            final(self)@ == old(self)@.remove(alias@),
            final(self).wf(),
    {
        let ghost s = self.entries_view();
        match self.find(alias) {
            Some(i) => {
                self.entries.remove(i);
                proof {
                    assert(self.entries_view() =~= s.remove(i as int));
                    lemma_map_of_remove(s, i as int);
                    assert(forall|p: int, q: int|
                        0 <= p < q < self.entries_view().len() ==> self.entries_view()[p].0
                            != self.entries_view()[q].0);
                }
            },
            None => {
                proof {
                    lemma_map_of_contains(s, alias@);
                    assert(!self@.contains_key(alias@));
                    assert(self@ =~= self@.remove(alias@));
                }
            },
        }
    }

    /// A copy of all entries, reflecting one consistent point in time.
    pub fn snapshot_all(&self) -> (r: Vec<Rustlink>)
        ensures
            entry_views(r@) == self.entries_view(),
    {
        let n = self.entries.len();
        let mut r: Vec<Rustlink> = Vec::new();
        let mut i: usize = 0;
        while i < n
            invariant
                n == self.entries@.len(),
                i <= n,
                r@.len() == i,
                entry_views(r@) =~= self.entries_view().take(i as int),
            decreases n - i,
        {
            let link = self.entries[i].duplicate();
            r.push(link);
            proof {
                assert(entry_views(r@)[i as int] == (self.entries@[i as int].alias@, self.entries@[i as int].url@));
                assert(entry_views(r@) =~= self.entries_view().take(i + 1));
            }
            i = i + 1;
        }
        proof {
            assert(self.entries_view().take(n as int) =~= self.entries_view());
        }
        r
    }

    /// Rebuilds a table from records (later duplicates win).
    pub fn from_entries(list: Vec<Rustlink>) -> (t: LinkTable)
        ensures
            t@ == map_of_entries(entry_views(list@)),
            t.wf(),
            unique_aliases(entry_views(list@)) ==> t.entries_view() == entry_views(list@),
    {
        let ghost full = entry_views(list@);
        let mut t = LinkTable::new();
        let n = list.len();
        let mut list = list;
        let mut i: usize = 0;
        while i < n
            invariant
                n == list@.len(),
                i <= n,
                entry_views(list@) == full,
                t@ == map_of_entries(full.take(i as int)),
                t.wf(),
                unique_aliases(full) ==> t.entries_view() == full.take(i as int),
            decreases n - i,
        {
            let ghost prefix = full.take(i as int);
            let link = list[i].duplicate();
            proof {
                assert(full[i as int] == (link.alias@, link.url@));
                if unique_aliases(full) {
                    lemma_map_of_contains(prefix, link.alias@);
                    assert(forall|j: int| 0 <= j < i ==> full[j].0 != full[i as int].0);
                    assert(!t@.contains_key(link.alias@));
                }
            }
            t.upsert(link);
            proof {
                assert(full.take(i + 1).drop_last() =~= prefix);
                assert(map_of_entries(full.take(i + 1)) == t@);
                if unique_aliases(full) {
                    assert(t.entries_view() =~= full.take(i + 1));
                }
            }
            i = i + 1;
        }
        proof {
            assert(full.take(n as int) =~= full);
        }
        t
    }
}

} // verus!
