//! The in-memory index from key to record location.
//!
//! The index is a small association list with distinct keys; its view
//! is the map from each key's characters to the stored location.  It
//! also accounts the total length of the records it points at, which
//! the engine uses to bound stale space.

use crate::kv::CommandPos;
use vstd::prelude::*;

verus! {

/// The map from key to the location of the key's latest `Set` record.
pub struct Index {
    pub entries: Vec<(String, CommandPos)>,
}

/// The map described by an entry sequence; later entries win.
pub open spec fn map_of(s: Seq<(String, CommandPos)>) -> Map<Seq<char>, CommandPos>
    decreases s.len(),
{
    if s.len() == 0 {
        Map::empty()
    } else {
        map_of(s.drop_last()).insert(s.last().0@, s.last().1)
    }
}

/// The total length in bytes of the records an entry sequence points at.
pub open spec fn live_bytes_of(s: Seq<(String, CommandPos)>) -> int
    decreases s.len(),
{
    if s.len() == 0 {
        0
    } else {
        live_bytes_of(s.drop_last()) + s.last().1.length
    }
}

/// True when no two entries share a key.
pub open spec fn distinct_keys(s: Seq<(String, CommandPos)>) -> bool {
    forall|i: int, j: int| 0 <= i < j < s.len() ==> s[i].0@ != s[j].0@
}

pub proof fn lemma_map_of_contains(s: Seq<(String, CommandPos)>, k: Seq<char>)
    ensures
        map_of(s).contains_key(k) <==> exists|i: int| 0 <= i < s.len() && s[i].0@ == k,
    decreases s.len(),
{
    if s.len() > 0 {
        lemma_map_of_contains(s.drop_last(), k);
        if map_of(s).contains_key(k) {
            if s.last().0@ == k {
                assert(s[s.len() - 1].0@ == k);
            } else {
                let i = choose|i: int| 0 <= i < s.drop_last().len() && s.drop_last()[i].0@ == k;
                assert(s[i].0@ == k);
            }
        }
        if exists|i: int| 0 <= i < s.len() && s[i].0@ == k {
            let i = choose|i: int| 0 <= i < s.len() && s[i].0@ == k;
            if i < s.len() - 1 {
                assert(s.drop_last()[i].0@ == k);
            }
        }
    }
}

pub proof fn lemma_map_of_index(s: Seq<(String, CommandPos)>, i: int)
    requires
        distinct_keys(s),
        0 <= i < s.len(),
    ensures
        map_of(s).contains_key(s[i].0@),
        map_of(s)[s[i].0@] == s[i].1,
    decreases s.len(),
{
    if i == s.len() - 1 {
        lemma_map_of_contains(s, s[i].0@);
    } else {
        assert(distinct_keys(s.drop_last())) by {
            assert(forall|a: int, b: int|
                0 <= a < b < s.drop_last().len() ==> s.drop_last()[a].0@ == s[a].0@ && s.drop_last()[b].0@
                    == s[b].0@);
        }
        assert(s.drop_last()[i] == s[i]);
        lemma_map_of_index(s.drop_last(), i);
        assert(s.last().0@ != s[i].0@);
    }
}

/// An entry's length never exceeds the live total, and the total is
/// never negative.
pub proof fn lemma_live_bytes_entry(s: Seq<(String, CommandPos)>, i: int)
    requires
        0 <= i < s.len(),
    ensures
        live_bytes_of(s) >= s[i].1.length,
        live_bytes_of(s) >= 0,
    decreases s.len(),
{
    lemma_live_bytes_nonneg(s.drop_last());
    if i == s.len() - 1 {
    } else {
        assert(s.drop_last()[i] == s[i]);
        lemma_live_bytes_entry(s.drop_last(), i);
    }
}

pub proof fn lemma_live_bytes_nonneg(s: Seq<(String, CommandPos)>)
    ensures
        live_bytes_of(s) >= 0,
    decreases s.len(),
{
    if s.len() > 0 {
        lemma_live_bytes_nonneg(s.drop_last());
    }
}

/// The record a present key points at is counted in the live total.
pub proof fn lemma_entry_length_le_live(idx: Index, k: Seq<char>)
    requires
        idx.wf(),
        idx@.contains_key(k),
    ensures
        idx@[k].length <= idx.live_bytes(),
        idx.live_bytes() >= 0,
{
    lemma_map_of_contains(idx.entries@, k);
    let i = choose|i: int| 0 <= i < idx.entries@.len() && idx.entries@[i].0@ == k;
    lemma_map_of_index(idx.entries@, i);
    lemma_live_bytes_entry(idx.entries@, i);
}

/// Two entry sequences whose records have the same lengths occupy the
/// same number of live bytes.
pub proof fn lemma_live_bytes_congruent(s1: Seq<(String, CommandPos)>, s2: Seq<(String, CommandPos)>)
    requires
        s1.len() == s2.len(),
        forall|i: int| 0 <= i < s1.len() ==> s1[i].1.length == s2[i].1.length,
    ensures
        live_bytes_of(s1) == live_bytes_of(s2),
    decreases s1.len(),
{
    if s1.len() > 0 {
        assert(forall|i: int|
            0 <= i < s1.drop_last().len() ==> s1.drop_last()[i].1.length == s1[i].1.length
                && s2.drop_last()[i].1.length == s2[i].1.length);
        lemma_live_bytes_congruent(s1.drop_last(), s2.drop_last());
    }
}

/// Replacing the location at one entry: the map gains the new binding
/// and the live total moves by the difference in lengths.
proof fn lemma_update_at(s: Seq<(String, CommandPos)>, i: int, cp: CommandPos)
    requires
        distinct_keys(s),
        0 <= i < s.len(),
    ensures
        map_of(s.update(i, (s[i].0, cp))) == map_of(s).insert(s[i].0@, cp),
        live_bytes_of(s.update(i, (s[i].0, cp))) == live_bytes_of(s) - s[i].1.length + cp.length,
        distinct_keys(s.update(i, (s[i].0, cp))),
    decreases s.len(),
{
    let s2 = s.update(i, (s[i].0, cp));
    assert(forall|a: int| 0 <= a < s.len() ==> s2[a].0@ == s[a].0@);
    if i == s.len() - 1 {
        assert(s2.drop_last() =~= s.drop_last());
        assert(s2.last() == (s[i].0, cp));
        assert(map_of(s2) =~= map_of(s).insert(s[i].0@, cp));
    } else {
        assert(distinct_keys(s.drop_last())) by {
            assert(forall|a: int|
                0 <= a < s.drop_last().len() ==> s.drop_last()[a].0@ == s[a].0@);
        }
        assert(s.drop_last()[i] == s[i]);
        lemma_update_at(s.drop_last(), i, cp);
        assert(s2.drop_last() =~= s.drop_last().update(i, (s[i].0, cp)));
        assert(s2.last() == s.last());
        assert(s.last().0@ != s[i].0@);
        assert(map_of(s2) == map_of(s.drop_last()).insert(s[i].0@, cp).insert(
            s.last().0@,
            s.last().1,
        ));
        assert(map_of(s2) =~= map_of(s).insert(s[i].0@, cp));
    }
}

/// Removing one entry: the map loses the binding and the live total
/// drops by its length.
proof fn lemma_remove_at(s: Seq<(String, CommandPos)>, i: int)
    requires
        distinct_keys(s),
        0 <= i < s.len(),
    ensures
        map_of(s.remove(i)) == map_of(s).remove(s[i].0@),
        live_bytes_of(s.remove(i)) == live_bytes_of(s) - s[i].1.length,
        distinct_keys(s.remove(i)),
    decreases s.len(),
{
    let s2 = s.remove(i);
    assert(forall|a: int| 0 <= a < i ==> s2[a] == s[a]);
    assert(forall|a: int| i <= a < s2.len() ==> s2[a] == s[a + 1]);
    if i == s.len() - 1 {
        assert(s2 =~= s.drop_last());
        lemma_map_of_contains(s.drop_last(), s[i].0@);
        assert(!map_of(s.drop_last()).contains_key(s[i].0@));
        assert(map_of(s2) =~= map_of(s).remove(s[i].0@));
    } else {
        assert(distinct_keys(s.drop_last())) by {
            assert(forall|a: int|
                0 <= a < s.drop_last().len() ==> s.drop_last()[a].0@ == s[a].0@);
        }
        assert(s.drop_last()[i] == s[i]);
        lemma_remove_at(s.drop_last(), i);
        assert(s2.drop_last() =~= s.drop_last().remove(i));
        assert(s2.last() == s.last());
        assert(s.last().0@ != s[i].0@);
        assert(map_of(s2) == map_of(s.drop_last()).remove(s[i].0@).insert(
            s.last().0@,
            s.last().1,
        ));
        assert(map_of(s2) =~= map_of(s).remove(s[i].0@));
    }
}

impl View for Index {
    type V = Map<Seq<char>, CommandPos>;

    open spec fn view(&self) -> Map<Seq<char>, CommandPos> {
        map_of(self.entries@)
    }
}

impl Index {
    /// The underlying entry sequence, in insertion order.
    pub open spec fn pairs(self) -> Seq<(String, CommandPos)> {
        self.entries@
    }

    /// Well-formed: no two entries share a key.
    pub open spec fn wf(self) -> bool {
        distinct_keys(self.entries@)
    }

    /// The total length in bytes of the records the index points at.
    pub open spec fn live_bytes(self) -> int {
        live_bytes_of(self.entries@)
    }

    /// An empty index.
    pub fn new() -> (r: Index)
        ensures
            r.wf(),
            r@ == Map::<Seq<char>, CommandPos>::empty(),
            r.pairs() == Seq::<(String, CommandPos)>::empty(),
            r.live_bytes() == 0,
    {
        Index { entries: Vec::new() }
    }

    /// How many keys are present.
    pub fn len(&self) -> (n: usize)
        ensures
            n == self.pairs().len(),
    {
        self.entries.len()
    }

    /// The position stored by entry `i`.
    pub fn pos_at(&self, i: usize) -> (cp: CommandPos)
        requires
            i < self.pairs().len(),
        ensures
            cp == self.pairs()[i as int].1,
    {
        self.entries[i].1
    }

    /// Replaces the position stored by entry `i`, keeping its key.
    pub fn set_pos_at(&mut self, i: usize, cp: CommandPos)
        requires
            old(self).wf(),
            i < old(self).pairs().len(),
        ensures
            final(self).wf(),
            final(self).pairs() == old(self).pairs().update(
                i as int,
                (old(self).pairs()[i as int].0, cp),
            ),
            final(self)@ == old(self)@.insert(old(self).pairs()[i as int].0@, cp),
            final(self).live_bytes() == old(self).live_bytes() + cp.length - old(
                self,
            ).pairs()[i as int].1.length,
    {
        proof {
            lemma_update_at(self.entries@, i as int, cp);
        }
        let pair = self.entries.remove(i);
        self.entries.insert(i, (pair.0, cp));
        proof {
            assert(self.entries@ =~= old(self).entries@.update(
                i as int,
                (old(self).entries@[i as int].0, cp),
            ));
        }
    }

    /// The entry index holding `key`, if any.
    fn find(&self, key: &String) -> (r: Option<usize>)
        ensures
            match r {
                Some(i) => i < self.entries@.len() && self.entries@[i as int].0@ == key@,
                None => forall|i: int| 0 <= i < self.entries@.len() ==> self.entries@[i].0@ != key@,
            },
    {
        let mut i: usize = 0;
        while i < self.entries.len()
            invariant
                i <= self.entries@.len(),
                forall|m: int| 0 <= m < i ==> self.entries@[m].0@ != key@,
            decreases self.entries@.len() - i,
        {
            if self.entries[i].0.eq(key) {
                return Some(i);
            }
            i = i + 1;
        }
        None
    }

    /// Looks up the location recorded for `key`.
    pub fn get(&self, key: &String) -> (r: Option<CommandPos>)
        requires
            self.wf(),
        ensures
            r is Some <==> self@.contains_key(key@),
            r is Some ==> r->0 == self@[key@],
    {
        match self.find(key) {
            Some(i) => {
                proof {
                    lemma_map_of_index(self.entries@, i as int);
                }
                Some(self.entries[i].1)
            },
            None => {
                proof {
                    lemma_map_of_contains(self.entries@, key@);
                }
                None
            },
        }
    }

    /// Binds `key` to `cp`; returns the location it replaced, if any.
    pub fn insert(&mut self, key: String, cp: CommandPos) -> (r: Option<CommandPos>)
        requires
            old(self).wf(),
        ensures
            final(self).wf(),
            final(self)@ == old(self)@.insert(key@, cp),
            r is Some <==> old(self)@.contains_key(key@),
            r is Some ==> r->0 == old(self)@[key@],
            final(self).live_bytes() == old(self).live_bytes() + cp.length - (
            match r {
                Some(o) => o.length as int,
                None => 0,
            }),
    {
        match self.find(&key) {
            Some(i) => {
                proof {
                    lemma_map_of_index(self.entries@, i as int);
                    lemma_update_at(self.entries@, i as int, cp);
                }
                let old_pos = self.entries[i].1;
                let pair = self.entries.remove(i);
                self.entries.insert(i, (pair.0, cp));
                proof {
                    assert(self.entries@ =~= old(self).entries@.update(
                        i as int,
                        (old(self).entries@[i as int].0, cp),
                    ));
                    assert(old(self).entries@[i as int].0@ == key@);
                    assert(map_of(self.entries@) =~= old(self)@.insert(key@, cp));
                }
                Some(old_pos)
            },
            None => {
                proof {
                    lemma_map_of_contains(self.entries@, key@);
                }
                let ghost prev = self.entries@;
                self.entries.push((key, cp));
                proof {
                    assert(self.entries@.drop_last() =~= prev);
                    assert(forall|a: int|
                        0 <= a < prev.len() ==> self.entries@[a] == prev[a]);
                }
                None
            },
        }
    }

    /// Unbinds `key`; returns the location it held, if any.
    pub fn remove(&mut self, key: &String) -> (r: Option<CommandPos>)
        requires
            old(self).wf(),
        ensures
            final(self).wf(),
            final(self)@ == old(self)@.remove(key@),
            r is Some <==> old(self)@.contains_key(key@),
            r is Some ==> r->0 == old(self)@[key@],
            final(self).live_bytes() == old(self).live_bytes() - (
            match r {
                Some(o) => o.length as int,
                None => 0,
            }),
    {
        match self.find(key) {
            Some(i) => {
                proof {
                    lemma_map_of_index(self.entries@, i as int);
                    lemma_remove_at(self.entries@, i as int);
                }
                let pair = self.entries.remove(i);
                Some(pair.1)
            },
            None => {
                proof {
                    lemma_map_of_contains(self.entries@, key@);
                    assert(map_of(self.entries@) =~= old(self)@.remove(key@));
                }
                None
            },
        }
    }
}

} // verus!
