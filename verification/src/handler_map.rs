//! The dispatch table of a rendered view: handler id to callback.  The
//! table is an association list with pairwise-distinct ids, abstracted
//! as a map from id to callback.  A callback is removed — taken — when
//! it fires, so a handler fires at most once per render cycle.

use vstd::prelude::*;

use crate::model::{keys_has, keys_unique, last_val, lemma_keys_unique_remove, lemma_last_val_at};

verus! {

/// The model of an entry list: each id paired with its callback.
pub open spec fn entry_views<H>(s: Seq<(String, H)>) -> Seq<(Seq<char>, H)> {
    Seq::new(s.len(), |j: int| (s[j].0@, s[j].1))
}

/// The map that an entry list denotes: a later entry for the same id
/// wins.
pub open spec fn map_of<H>(s: Seq<(Seq<char>, H)>) -> Map<Seq<char>, H>
    decreases s.len(),
{
    if s.len() == 0 {
        Map::empty()
    } else {
        map_of(s.drop_last()).insert(s.last().0, s.last().1)
    }
}

/// The denoted map holds exactly the listed ids, each at its last
/// listed value.
pub proof fn lemma_map_of_char<H>(s: Seq<(Seq<char>, H)>, k: Seq<char>)
    ensures
        map_of(s).contains_key(k) == keys_has(s, k),
        keys_has(s, k) ==> Some(map_of(s)[k]) == last_val(s, k),
    decreases s.len(),
{
    if s.len() > 0 {
        lemma_map_of_char(s.drop_last(), k);
        if keys_has(s, k) {
            if s.last().0 != k {
                let j = choose|j: int| 0 <= j < s.len() && s[j].0 == k;
                assert(s.drop_last()[j] == s[j]);
                assert(keys_has(s.drop_last(), k));
            }
        } else {
            assert(forall|j: int| 0 <= j < s.len() - 1 ==> s.drop_last()[j] == s[j]);
            assert(!keys_has(s.drop_last(), k)) by {
                if keys_has(s.drop_last(), k) {
                    let j = choose|j: int| 0 <= j < s.len() - 1 && s.drop_last()[j].0 == k;
                    assert(s[j].0 == k);
                }
            }
        }
    }
}

/// Removing the only entry for an id removes exactly that id from the
/// denoted map.
pub proof fn lemma_map_of_remove<H>(s: Seq<(Seq<char>, H)>, m: int)
    requires
        keys_unique(s),
        0 <= m < s.len(),
    ensures
        map_of(s.remove(m)) == map_of(s).remove(s[m].0),
    decreases s.len(),
{
    if m == s.len() - 1 {
        assert(s.remove(m) =~= s.drop_last());
        lemma_map_of_char(s.drop_last(), s[m].0);
        assert(!keys_has(s.drop_last(), s[m].0)) by {
            if keys_has(s.drop_last(), s[m].0) {
                let j = choose|j: int| 0 <= j < s.len() - 1 && s.drop_last()[j].0 == s[m].0;
                assert(s[j].0 == s[m].0);
            }
        }
        assert(map_of(s.drop_last()).insert(s.last().0, s.last().1).remove(s[m].0) =~= map_of(
            s.drop_last(),
        ));
    } else {
        assert(s.remove(m).last() == s.last());
        assert(s.remove(m).drop_last() =~= s.drop_last().remove(m));
        assert(forall|j: int| 0 <= j < s.len() - 1 ==> s.drop_last()[j] == s[j]);
        assert(keys_unique(s.drop_last()));
        lemma_map_of_remove(s.drop_last(), m);
        assert(s[m].0 != s.last().0);
        assert(map_of(s.drop_last()).remove(s[m].0).insert(s.last().0, s.last().1) =~= map_of(
            s.drop_last(),
        ).insert(s.last().0, s.last().1).remove(s[m].0));
        assert(map_of(s.remove(m)) == map_of(s.drop_last().remove(m)).insert(
            s.last().0,
            s.last().1,
        ));
    }
}

/// The dispatch table: handler id to callback, abstracted as a map.
pub struct HandlerMap<H> {
    entries: Vec<(String, H)>,
}

impl<H> View for HandlerMap<H> {
    type V = Map<Seq<char>, H>;

    closed spec fn view(&self) -> Map<Seq<char>, H> {
        map_of(entry_views(self.entries@))
    }
}

impl<H> HandlerMap<H> {
    /// The ids are pairwise distinct.
    #[verifier::type_invariant]
    closed spec fn wf(self) -> bool {
        keys_unique(entry_views(self.entries@))
    }

    /// An empty table.
    pub fn new() -> (r: HandlerMap<H>)
        ensures
            r@ == Map::<Seq<char>, H>::empty(),
    {
        HandlerMap { entries: Vec::new() }
    }

    /// Take the callback stored under `id`, if any: a second take of
    /// the same id finds nothing.
    pub fn remove(&mut self, id: &String) -> (r: Option<H>)
        ensures
            old(self)@.contains_key(id@) ==> {
                &&& r is Some
                &&& r->Some_0 == old(self)@[id@]
                &&& final(self)@ == old(self)@.remove(id@)
            },
            !old(self)@.contains_key(id@) ==> r is None && final(self)@ == old(self)@,
    {
        proof {
            use_type_invariant(&*self);
        }
        let ghost sv = entry_views(self.entries@);
        let n = self.entries.len();
        let mut idx: usize = n;
        let mut m: usize = 0;
        while m < n
            invariant
                n == self.entries@.len(),
                m <= n,
                idx <= n,
                sv == entry_views(self.entries@),
                idx == n ==> forall|p: int| 0 <= p < m ==> (#[trigger] sv[p]).0 != id@,
                idx < n ==> sv[idx as int].0 == id@,
            decreases n - m,
        {
            proof {
                assert(sv[m as int] == (self.entries@[m as int].0@, self.entries@[m as int].1));
            }
            if idx == n && self.entries[m].0 == *id {
                idx = m;
            }
            m += 1;
        }
        if idx < n {
            let mut ev: Vec<(String, H)> = Vec::new();
            core::mem::swap(&mut self.entries, &mut ev);
            let pair = ev.remove(idx);
            proof {
                assert(sv[idx as int] == (old(self).entries@[idx as int].0@, old(
                    self,
                ).entries@[idx as int].1));
                assert(keys_has(sv, id@));
                assert forall|p: int| idx < p < sv.len() implies (#[trigger] sv[p]).0 != id@ by {
                    assert(sv[idx as int].0 != sv[p].0);
                }
                lemma_map_of_remove(sv, idx as int);
                lemma_map_of_char(sv, id@);
                lemma_last_val_at(sv, id@, idx as int);
                lemma_keys_unique_remove(sv, idx as int);
                assert(entry_views(ev@) =~= sv.remove(idx as int));
            }
            core::mem::swap(&mut self.entries, &mut ev);
            Some(pair.1)
        } else {
            proof {
                lemma_map_of_char(sv, id@);
                assert(!keys_has(sv, id@)) by {
                    if keys_has(sv, id@) {
                        let j = choose|j: int| 0 <= j < sv.len() && sv[j].0 == id@;
                        assert(sv[j].0 != id@);
                    }
                }
                assert(!old(self)@.contains_key(id@));
            }
            None
        }
    }

    /// Store `f` under `id`, replacing any callback already there.
    pub fn insert(&mut self, id: String, f: H)
        ensures
            final(self)@ == old(self)@.insert(id@, f),
    {
        let _prior = self.remove(&id);
        let ghost mid = self@;
        let ghost sv = entry_views(self.entries@);
        proof {
            use_type_invariant(&*self);
            lemma_map_of_char(sv, id@);
        }
        let mut ev: Vec<(String, H)> = Vec::new();
        core::mem::swap(&mut self.entries, &mut ev);
        let ghost idv = id@;
        ev.push((id, f));
        proof {
            let svp = entry_views(ev@);
            assert(svp =~= sv.push((idv, f)));
            assert(svp.drop_last() =~= sv);
            assert(svp.last() == (idv, f));
            assert(keys_unique(svp)) by {
                assert(!keys_has(sv, idv));
                assert forall|j: int, p: int| 0 <= j < p < svp.len() implies svp[j].0 != svp[p].0
                by {
                    if p == svp.len() - 1 {
                        assert(svp[j] == sv[j]);
                    }
                }
            }
        }
        core::mem::swap(&mut self.entries, &mut ev);
        proof {
            assert(self@ == mid.insert(idv, f));
            assert(mid.insert(idv, f) =~= old(self)@.insert(idv, f));
        }
    }

    /// Pour every entry of `other` into this table: on a shared id the
    /// entry of `other` wins.
    pub fn merge(&mut self, other: HandlerMap<H>)
        ensures
            final(self)@ == old(self)@.union_prefer_right(other@),
    {
        proof {
            use_type_invariant(&other);
        }
        let ghost target = old(self)@.union_prefer_right(other@);
        let HandlerMap { entries: mut ev } = other;
        while ev.len() > 0
            invariant
                keys_unique(entry_views(ev@)),
                self@.union_prefer_right(map_of(entry_views(ev@))) == target,
            decreases ev@.len(),
        {
            let ghost sv = entry_views(ev@);
            let ghost selfm = self@;
            proof {
                assert(sv[0] == (ev@[0].0@, ev@[0].1));
                lemma_map_of_char(sv, sv[0].0);
                lemma_last_val_at(sv, sv[0].0, 0);
                lemma_map_of_remove(sv, 0);
                lemma_keys_unique_remove(sv, 0);
            }
            let pair = ev.remove(0);
            proof {
                assert(entry_views(ev@) =~= sv.remove(0));
            }
            self.insert(pair.0, pair.1);
            proof {
                let k = sv[0].0;
                let v = sv[0].1;
                assert(map_of(sv)[k] == v);
                assert(self@.union_prefer_right(map_of(entry_views(ev@))) =~= selfm
                    .union_prefer_right(map_of(sv)));
            }
        }
        proof {
            assert(map_of(entry_views(ev@)) =~= Map::<Seq<char>, H>::empty());
            assert(self@.union_prefer_right(Map::<Seq<char>, H>::empty()) =~= self@);
        }
    }
}

} // verus!
