//! The rejection report: which foods the dog refused, and why.
//!
//! `BadFood` is a map from path to `TastingError`, kept as a vector of
//! entries sorted strictly by path so that the report order is the sorted
//! order of the path strings.

use vstd::prelude::*;
use crate::order::{key_lt, str_lt, lemma_key_lt_irrefl, lemma_key_lt_trans, lemma_key_lt_connected};

verus! {

/// Why one food cannot be eaten.
#[derive(Clone, Copy, Debug, PartialEq, Eq, Structural)]
pub enum TastingError {
    /// Something is wrong
    Confused,
    /// Permission denied
    NotAllowed,
    /// File does not exist
    NotExist,
    /// Not a regular-file
    NotFood,
}

/// The entry keys are strictly ascending in `key_lt`, so every key occurs
/// once and the entries stand in sorted order of their paths.
pub open spec fn sorted_keys(s: Seq<(String, TastingError)>) -> bool {
    forall|i: int, j: int| 0 <= i < j < s.len() ==> key_lt(#[trigger] s[i].0@, #[trigger] s[j].0@)
}

/// The map an entry list stands for: entries are added left to right, so a
/// later entry for the same path overwrites an earlier one.
pub open spec fn entries_map(s: Seq<(String, TastingError)>) -> Map<Seq<char>, TastingError>
    decreases s.len(),
{
    if s.len() == 0 {
        Map::empty()
    } else {
        entries_map(s.drop_last()).insert(s.last().0@, s.last().1)
    }
}

/// Foods the dog refused, keyed by path, listed in sorted path order.
#[derive(Debug)]
pub struct BadFood {
    /// The rejected paths with their reasons, sorted strictly by path.
    pub entries: Vec<(String, TastingError)>,
}

impl BadFood {
    /// Well-formed: entries sorted strictly by path.
    pub open spec fn wf(self) -> bool {
        sorted_keys(self.entries@)
    }

    /// The report as a map from path to reason.
    pub open spec fn as_map(self) -> Map<Seq<char>, TastingError> {
        entries_map(self.entries@)
    }

    /// The reported paths, in report order.
    pub open spec fn key_seq(self) -> Seq<Seq<char>> {
        Seq::new(self.entries@.len(), |i: int| self.entries@[i].0@)
    }

    /// An empty report.
    pub fn new() -> (r: BadFood)
        ensures
            r.wf(),
            r.as_map() == Map::<Seq<char>, TastingError>::empty(),
            r.entries@.len() == 0,
    {
        BadFood { entries: Vec::new() }
    }

    /// How many paths the report rejects.
    pub fn len(&self) -> (n: usize)
        ensures
            n == self.entries@.len(),
    {
        self.entries.len()
    }

    /// Record that `path` cannot be eaten for `reason`. A reason recorded
    /// earlier for the same path is overwritten; other paths keep theirs.
    pub fn insert(&mut self, path: String, reason: TastingError)
        requires
            old(self).wf(),
        ensures
            final(self).wf(),
            final(self).as_map() == old(self).as_map().insert(path@, reason),
    {
        let ghost s0 = self.entries@;
        let mut idx: usize = 0;
        while idx < self.entries.len() && str_lt(self.entries[idx].0.as_str(), path.as_str())
            invariant
                *self == *old(self),
                idx <= self.entries@.len(),
                forall|i: int| 0 <= i < idx ==> key_lt(#[trigger] self.entries@[i].0@, path@),
            decreases self.entries@.len() - idx,
        {
            idx += 1;
        }
        let found = idx < self.entries.len() && self.entries[idx].0 == path;
        if found {
            proof {
                lemma_sorted_update(s0, idx as int, path, reason);
                s0.remove_ensures(idx as int);
                s0.remove(idx as int).insert_ensures(idx as int, (path, reason));
            }
            self.entries.remove(idx);
            self.entries.insert(idx, (path, reason));
            proof {
                assert(self.entries@ =~= s0.update(idx as int, (path, reason)));
            }
        } else {
            proof {
                if idx < s0.len() {
                    if !key_lt(path@, s0[idx as int].0@) {
                        lemma_key_lt_connected(s0[idx as int].0@, path@);
                    }
                }
                assert forall|i: int| idx <= i < s0.len() implies key_lt(
                    path@,
                    #[trigger] s0[i].0@,
                ) by {
                    if i > idx {
                        lemma_key_lt_trans(path@, s0[idx as int].0@, s0[i].0@);
                    }
                }
                lemma_sorted_insert(s0, idx as int, path, reason);
            }
            self.entries.insert(idx, (path, reason));
        }
    }

    /// Whether the report rejects nothing.
    pub fn is_empty(&self) -> (r: bool)
        ensures
            r == (self.entries@.len() == 0),
            r == (self.as_map() == Map::<Seq<char>, TastingError>::empty()),
    {
        proof {
            lemma_entries_map_empty(self.entries@);
        }
        self.entries.is_empty()
    }
}

/// Putting a fresh path at its sorted position keeps the list sorted and
/// adds exactly that pair to the map.
proof fn lemma_sorted_insert(s: Seq<(String, TastingError)>, idx: int, p: String, r: TastingError)
    requires
        sorted_keys(s),
        0 <= idx <= s.len(),
        forall|i: int| 0 <= i < idx ==> key_lt(#[trigger] s[i].0@, p@),
        forall|i: int| idx <= i < s.len() ==> key_lt(p@, #[trigger] s[i].0@),
    ensures
        sorted_keys(s.insert(idx, (p, r))),
        entries_map(s.insert(idx, (p, r))) == entries_map(s).insert(p@, r),
    decreases s.len(),
{
    let t = s.insert(idx, (p, r));
    s.insert_ensures(idx, (p, r));
    assert forall|i: int, j: int| 0 <= i < j < t.len() implies key_lt(t[i].0@, t[j].0@) by {
        if i < idx && j < idx {
        } else if i == idx && j > idx {
            assert(t[j] == s[j - 1]);
        } else if j == idx {
            assert(t[i] == s[i]);
        } else if i < idx && j > idx {
            lemma_key_lt_trans(s[i].0@, p@, s[j - 1].0@);
        }
    }
    if idx == s.len() {
        assert(t.drop_last() =~= s);
        assert(t.last() == (p, r));
    } else {
        let lastk = s.last().0@;
        let lastv = s.last().1;
        assert(key_lt(p@, lastk));
        if p@ == lastk {
            lemma_key_lt_irrefl(p@);
        }
        assert(t.last() == s.last());
        assert(t.drop_last() =~= s.drop_last().insert(idx, (p, r))) by {
            s.drop_last().insert_ensures(idx, (p, r));
        }
        assert(sorted_keys(s.drop_last()));
        assert forall|i: int| 0 <= i < idx implies key_lt(#[trigger] s.drop_last()[i].0@, p@) by {
            assert(s.drop_last()[i] == s[i]);
        }
        assert forall|i: int| idx <= i < s.drop_last().len() implies key_lt(
            p@,
            #[trigger] s.drop_last()[i].0@,
        ) by {
            assert(s.drop_last()[i] == s[i]);
        }
        lemma_sorted_insert(s.drop_last(), idx, p, r);
        let m = entries_map(s.drop_last());
        assert(entries_map(t) == entries_map(t.drop_last()).insert(lastk, lastv));
        assert(m.insert(p@, r).insert(lastk, lastv) =~= m.insert(lastk, lastv).insert(p@, r));
    }
}

/// Replacing the entry that already holds a path keeps the list sorted and
/// overwrites exactly that path in the map.
proof fn lemma_sorted_update(s: Seq<(String, TastingError)>, idx: int, p: String, r: TastingError)
    requires
        sorted_keys(s),
        0 <= idx < s.len(),
        s[idx].0@ == p@,
    ensures
        sorted_keys(s.update(idx, (p, r))),
        entries_map(s.update(idx, (p, r))) == entries_map(s).insert(p@, r),
    decreases s.len(),
{
    let t = s.update(idx, (p, r));
    assert forall|i: int, j: int| 0 <= i < j < t.len() implies key_lt(t[i].0@, t[j].0@) by {
        assert(t[i].0@ == s[i].0@);
        assert(t[j].0@ == s[j].0@);
    }
    let lastk = s.last().0@;
    let lastv = s.last().1;
    if idx == s.len() - 1 {
        assert(t.drop_last() =~= s.drop_last());
        let m = entries_map(s.drop_last());
        assert(entries_map(t) == m.insert(p@, r));
        assert(m.insert(lastk, lastv).insert(p@, r) =~= m.insert(p@, r));
    } else {
        assert(key_lt(s[idx].0@, lastk));
        if p@ == lastk {
            lemma_key_lt_irrefl(p@);
        }
        assert(t.last() == s.last());
        assert(t.drop_last() =~= s.drop_last().update(idx, (p, r)));
        assert(sorted_keys(s.drop_last()));
        lemma_sorted_update(s.drop_last(), idx, p, r);
        let m = entries_map(s.drop_last());
        assert(entries_map(t) == m.insert(p@, r).insert(lastk, lastv));
        assert(m.insert(p@, r).insert(lastk, lastv) =~= m.insert(lastk, lastv).insert(p@, r));
    }
}

/// A path is in the map of an entry list exactly when some entry holds it.
pub proof fn lemma_entries_map_key(s: Seq<(String, TastingError)>, k: Seq<char>)
    ensures
        entries_map(s).contains_key(k) <==> (exists|i: int|
            0 <= i < s.len() && #[trigger] s[i].0@ == k),
    decreases s.len(),
{
    if s.len() > 0 {
        lemma_entries_map_key(s.drop_last(), k);
        if s.last().0@ == k {
            assert(s[s.len() - 1].0@ == k);
        } else if entries_map(s).contains_key(k) {
            let i = choose|i: int| 0 <= i < s.drop_last().len() && #[trigger] s.drop_last()[i].0@
                == k;
            assert(s[i].0@ == k);
        } else if exists|i: int| 0 <= i < s.len() && #[trigger] s[i].0@ == k {
            let i = choose|i: int| 0 <= i < s.len() && #[trigger] s[i].0@ == k;
            assert(s.drop_last()[i].0@ == k);
        }
    }
}

/// In a sorted entry list every entry's path is in the map, mapped to that
/// entry's reason.
pub proof fn lemma_entries_map_value(s: Seq<(String, TastingError)>, i: int)
    requires
        sorted_keys(s),
        0 <= i < s.len(),
    ensures
        entries_map(s).contains_key(s[i].0@),
        entries_map(s)[s[i].0@] == s[i].1,
    decreases s.len(),
{
    if i == s.len() - 1 {
    } else {
        assert(sorted_keys(s.drop_last()));
        assert(s.drop_last()[i] == s[i]);
        lemma_entries_map_value(s.drop_last(), i);
        assert(key_lt(s[i].0@, s.last().0@));
        if s[i].0@ == s.last().0@ {
            lemma_key_lt_irrefl(s[i].0@);
        }
    }
}

/// Two sorted entry lists that stand for the same map are the same list:
/// the report order is determined by the rejected paths alone.
proof fn lemma_sorted_entries_unique(s: Seq<(String, TastingError)>, t: Seq<(String, TastingError)>)
    requires
        sorted_keys(s),
        sorted_keys(t),
        entries_map(s) == entries_map(t),
    ensures
        s.len() == t.len(),
        forall|i: int|
            0 <= i < s.len() ==> #[trigger] s[i].0@ == t[i].0@ && s[i].1 == t[i].1,
    decreases s.len(),
{
    lemma_entries_map_empty(s);
    lemma_entries_map_empty(t);
    if s.len() == 0 {
        assert(entries_map(t) == Map::<Seq<char>, TastingError>::empty());
    } else {
        assert(t.len() > 0);
        let sk = s.last().0@;
        let tk = t.last().0@;
        // the last key of each list is the greatest key of the shared map,
        // so the two last keys agree
        lemma_entries_map_value(s, s.len() - 1);
        lemma_entries_map_value(t, t.len() - 1);
        lemma_entries_map_key(t, sk);
        let i = choose|i: int| 0 <= i < t.len() && #[trigger] t[i].0@ == sk;
        lemma_entries_map_key(s, tk);
        let j = choose|j: int| 0 <= j < s.len() && #[trigger] s[j].0@ == tk;
        if i < t.len() - 1 && j < s.len() - 1 {
            lemma_key_lt_trans(sk, tk, sk);
            lemma_key_lt_irrefl(sk);
        } else if i < t.len() - 1 {
            lemma_key_lt_irrefl(tk);
        } else if j < s.len() - 1 {
            lemma_key_lt_irrefl(sk);
        }
        assert(sk == tk);
        assert(s.last().1 == t.last().1);
        // neither shortened list still holds the last key
        lemma_entries_map_key(s.drop_last(), sk);
        if exists|m: int| 0 <= m < s.drop_last().len() && #[trigger] s.drop_last()[m].0@ == sk {
            let m = choose|m: int|
                0 <= m < s.drop_last().len() && #[trigger] s.drop_last()[m].0@ == sk;
            assert(key_lt(s[m].0@, sk));
            lemma_key_lt_irrefl(sk);
        }
        lemma_entries_map_key(t.drop_last(), sk);
        if exists|m: int| 0 <= m < t.drop_last().len() && #[trigger] t.drop_last()[m].0@ == sk {
            let m = choose|m: int|
                0 <= m < t.drop_last().len() && #[trigger] t.drop_last()[m].0@ == sk;
            assert(key_lt(t[m].0@, sk));
            lemma_key_lt_irrefl(sk);
        }
        assert(entries_map(s.drop_last()) =~= entries_map(s).remove(sk));
        assert(entries_map(t.drop_last()) =~= entries_map(t).remove(sk));
        assert(sorted_keys(s.drop_last()));
        assert(sorted_keys(t.drop_last()));
        lemma_sorted_entries_unique(s.drop_last(), t.drop_last());
        assert forall|i: int|
            0 <= i < s.len() implies #[trigger] s[i].0@ == t[i].0@ && s[i].1 == t[i].1 by {
            if i < s.len() - 1 {
                assert(s.drop_last()[i] == s[i]);
                assert(t.drop_last()[i] == t[i]);
            }
        }
    }
}

/// Law: rejection reporting order is deterministic. Two well-formed reports
/// that reject the same paths for the same reasons list identical entries in
/// identical order, however their inputs were ordered.
pub proof fn lemma_report_order_deterministic(a: BadFood, b: BadFood)
    requires
        a.wf(),
        b.wf(),
        a.as_map() == b.as_map(),
    ensures
        a.entries@.len() == b.entries@.len(),
        forall|i: int|
            0 <= i < a.entries@.len() ==> #[trigger] a.entries@[i].0@ == b.entries@[i].0@
                && a.entries@[i].1 == b.entries@[i].1,
        a.key_seq() == b.key_seq(),
{
    lemma_sorted_entries_unique(a.entries@, b.entries@);
    assert(a.key_seq() =~= b.key_seq());
}

/// The map of an entry list is empty exactly when the list is.
pub proof fn lemma_entries_map_empty(s: Seq<(String, TastingError)>)
    ensures
        (entries_map(s) == Map::<Seq<char>, TastingError>::empty()) <==> s.len() == 0,
{
    if s.len() == 0 {
        assert(entries_map(s) =~= Map::<Seq<char>, TastingError>::empty());
    } else {
        assert(entries_map(s).contains_key(s.last().0@));
        assert(!Map::<Seq<char>, TastingError>::empty().contains_key(s.last().0@));
    }
}

} // verus!
