//! Warm-start cache of the contact solver, keyed by `(body_a, body_b, feature_id)`.
//!
//! The cache carries, for every contact point solved in the last step, an
//! opaque payload (accumulated impulses and the anchors of both bodies). This
//! module owns the keying, the inheritance decision and the garbage
//! collection; the payload is whatever the solver stores.
use std::collections::{BTreeMap, BTreeSet};
use vstd::std_specs::iter::IteratorSpec;
use vstd::prelude::*;

verus! {

broadcast use {
    vstd::std_specs::btree::group_btree_axioms,
    vstd::laws_cmp::group_laws_cmp,
    vstd::seq_lib::group_seq_properties,
};

/// Key of one cached contact point: the body pair and the contact feature.
pub type ContactKey = (usize, usize, u32);

/// Persistent contact cache (manifold persistence).
pub struct ManifoldCache<P> {
    points: BTreeMap<ContactKey, P>,
    /// With persistence on, a cached point is inherited only while its anchors
    /// stay together and stale entries are collected; with it off every entry
    /// with a matching key is inherited and nothing is ever collected.
    pub persistence_enabled: bool,
}

impl<P> View for ManifoldCache<P> {
    type V = Map<ContactKey, P>;

    closed spec fn view(&self) -> Map<ContactKey, P> {
        self.points@
    }
}

/// The entries of `m` whose body pair is in `live`.
pub open spec fn keep_live_pairs<P>(m: Map<ContactKey, P>, live: Set<(usize, usize)>) -> Map<
    ContactKey,
    P,
> {
    m.restrict(m.dom().filter(|k: ContactKey| live.contains((k.0, k.1))))
}

/// The entries of `m` that were touched this step, or whose body pair was not
/// solved this step (a pair skipped while asleep keeps its entries).
pub open spec fn keep_touched<P>(
    m: Map<ContactKey, P>,
    touched: Set<ContactKey>,
    solved: Set<(usize, usize)>,
) -> Map<ContactKey, P> {
    m.restrict(m.dom().filter(|k: ContactKey| touched.contains(k) || !solved.contains((k.0, k.1))))
}

/// What a contact point inherits from the cache: nothing when no entry has
/// its key; otherwise the entry, unless persistence is on and the two anchors
/// of the entry have drifted apart.
pub open spec fn inherited_entry<P>(
    m: Map<ContactKey, P>,
    persistence_enabled: bool,
    key: ContactKey,
    anchors_close: bool,
) -> Option<P> {
    if !m.contains_key(key) {
        None
    } else if !persistence_enabled || anchors_close {
        Some(m[key])
    } else {
        None
    }
}

/// A contact point recorded in one step is inherited in the next one when its
/// anchors stay together, or in any case when persistence is off.
pub proof fn lemma_recorded_point_is_inherited<P>(
    m: Map<ContactKey, P>,
    persistence_enabled: bool,
    key: ContactKey,
    entry: P,
    anchors_close: bool,
)
    requires
        !persistence_enabled || anchors_close,
    ensures
        inherited_entry(m.insert(key, entry), persistence_enabled, key, anchors_close) == Some(entry),
{
}

/// With persistence on, a point whose anchors drifted apart inherits nothing,
/// whatever was cached.
pub proof fn lemma_drifted_point_starts_cold<P>(m: Map<ContactKey, P>, key: ContactKey)
    ensures
        inherited_entry(m, true, key, false) is None,
{
}

/// Collecting by live pairs keeps exactly the entries of live pairs, with their
/// payloads, and collecting twice with the same pairs changes nothing more.
pub proof fn lemma_keep_live_pairs_laws<P>(m: Map<ContactKey, P>, live: Set<(usize, usize)>, key: ContactKey)
    ensures
        keep_live_pairs(m, live).contains_key(key) <==> (m.contains_key(key) && live.contains(
            (key.0, key.1),
        )),
        keep_live_pairs(m, live).contains_key(key) ==> keep_live_pairs(m, live)[key] == m[key],
        keep_live_pairs(keep_live_pairs(m, live), live) == keep_live_pairs(m, live),
{
    assert(keep_live_pairs(keep_live_pairs(m, live), live) =~= keep_live_pairs(m, live));
}

/// The write-back collection never drops an entry touched this step nor an
/// entry of a pair that was not solved (a sleeping pair keeps its impulses).
pub proof fn lemma_keep_touched_laws<P>(
    m: Map<ContactKey, P>,
    touched: Set<ContactKey>,
    solved: Set<(usize, usize)>,
    key: ContactKey,
)
    requires
        m.contains_key(key),
        touched.contains(key) || !solved.contains((key.0, key.1)),
    ensures
        keep_touched(m, touched, solved).contains_key(key),
        keep_touched(m, touched, solved)[key] == m[key],
{
}

impl<P> ManifoldCache<P> {
    /// Whether persistence is on.
    pub closed spec fn persists(&self) -> bool {
        self.persistence_enabled
    }

    /// Turns persistence on or off (off is the pre-persistence behaviour,
    /// kept for comparison runs).
    pub fn set_persistence(&mut self, enabled: bool)
        ensures
            final(self)@ == old(self)@,
            final(self).persists() == enabled,
    {
        self.persistence_enabled = enabled;
    }

    /// An empty cache with persistence on.
    pub fn new() -> (cache: ManifoldCache<P>)
        ensures
            cache@ == Map::<ContactKey, P>::empty(),
            cache.persists(),
    {
        ManifoldCache { points: BTreeMap::new(), persistence_enabled: true }
    }

    /// Number of cached contact points.
    pub fn len(&self) -> (n: usize)
        ensures
            n == self@.len(),
    {
        self.points.len()
    }

    /// The entry stored under `key`, if any.
    pub fn lookup(&self, key: ContactKey) -> (entry: Option<&P>)
        ensures
            match entry {
                Some(p) => self@.contains_key(key) && *p == self@[key],
                None => !self@.contains_key(key),
            },
    {
        self.points.get(&key)
    }

    /// The entry a contact point with this `key` inherits. `anchors_close`
    /// tells whether the entry's two anchors, brought to the current body
    /// poses, are closer than the persistence tolerance; it only matters when
    /// persistence is on.
    pub fn inherited(&self, key: ContactKey, anchors_close: bool) -> (entry: Option<&P>)
        ensures
            match entry {
                Some(p) => inherited_entry(self@, self.persists(), key, anchors_close)
                    == Some(*p),
                None => inherited_entry(self@, self.persists(), key, anchors_close)
                    is None,
            },
    {
        match self.points.get(&key) {
            None => None,
            Some(p) => {
                if !self.persistence_enabled || anchors_close {
                    Some(p)
                } else {
                    None
                }
            },
        }
    }

    /// Stores the payload of a contact point solved this step.
    pub fn record(&mut self, key: ContactKey, entry: P)
        ensures
            final(self)@ == old(self)@.insert(key, entry),
            final(self).persists() == old(self).persists(),
    {
        self.points.insert(key, entry);
    }

    /// Removes every key of `doomed` from the cache.
    fn remove_all(&mut self, doomed: &Vec<ContactKey>)
        ensures
            final(self)@ == old(self)@.remove_keys(doomed@.to_set()),
            final(self).persists() == old(self).persists(),
    {
        let mut i: usize = 0;
        while i < doomed.len()
            invariant
                i <= doomed@.len(),
                self.persists() == old(self).persists(),
                self@ == old(self)@.remove_keys(doomed@.subrange(0, i as int).to_set()),
            decreases doomed@.len() - i,
        {
            let k = doomed[i];
            self.points.remove(&k);
            proof {
                assert(doomed@.subrange(0, i + 1) =~= doomed@.subrange(0, i as int).push(k));
                assert(doomed@.subrange(0, i + 1).to_set() =~= doomed@.subrange(0, i as int).to_set().insert(k))
                    by {
                    broadcast use vstd::seq_lib::group_seq_properties;
                }
                assert(self@ =~= old(self)@.remove_keys(doomed@.subrange(0, i + 1).to_set()));
            }
            i = i + 1;
        }
        assert(doomed@.subrange(0, doomed@.len() as int) =~= doomed@);
    }

    /// Keeps exactly the entries whose key is in `touched`, or whose body pair
    /// is in `pairs` when `keep_listed` holds (is not in `pairs` otherwise).
    fn retain_where(
        &mut self,
        touched: &BTreeSet<ContactKey>,
        pairs: &BTreeSet<(usize, usize)>,
        keep_listed: bool,
    )
        ensures
            final(self).persists() == old(self).persists(),
            final(self)@ == old(self)@.restrict(
                old(self)@.dom().filter(
                    |k: ContactKey|
                        touched@.contains(k) || pairs@.contains((k.0, k.1)) == keep_listed,
                ),
            ),
    {
        let mut doomed: Vec<ContactKey> = Vec::new();
        let keys = self.points.keys();
        assert(keys.remaining().unref().to_set() == self@.dom());
        assert(keys.remaining().no_duplicates());
        for k in it: keys
            invariant
                it.seq() == keys.remaining(),
                keys.remaining().unref().to_set() == self@.dom(),
                keys.remaining().no_duplicates(),
                forall|d: ContactKey|
                    doomed@.contains(d) <==> (exists|q: int|
                        0 <= q < it.index() && it.seq().unref()[q] == d) && !(touched@.contains(d)
                        || pairs@.contains((d.0, d.1)) == keep_listed),
        {
            let pair = (k.0, k.1);
            let ghost idx = it.index();
            let ghost ks = it.seq().unref();
            assert(*k == ks[idx]);
            let ghost before = doomed@;
            if !(touched.contains(k) || pairs.contains(&pair) == keep_listed) {
                doomed.push(*k);
            }
            proof {
                assert forall|d: ContactKey|
                    doomed@.contains(d) <==> (exists|q: int| 0 <= q < idx + 1 && ks[q] == d) && !(
                    touched@.contains(d) || pairs@.contains((d.0, d.1)) == keep_listed) by {
                    if d == *k {
                        assert(ks[idx] == d);
                        if before.contains(d) {
                            let q = choose|q: int| 0 <= q < idx && ks[q] == d;
                            assert(it.seq()[q] == it.seq()[idx]);
                        }
                    } else {
                        if exists|q: int| 0 <= q < idx + 1 && ks[q] == d {
                            let q = choose|q: int| 0 <= q < idx + 1 && ks[q] == d;
                            assert(q < idx);
                        }
                        assert(doomed@.contains(d) == before.contains(d));
                    }
                }
            }
        }
        let ghost before = self@;
        self.remove_all(&doomed);
        proof {
            let ks = keys.remaining().unref();
            assert forall|d: ContactKey| #[trigger] before.dom().contains(d) implies (exists|q: int|
                0 <= q < ks.len() && ks[q] == d) by {
                assert(ks.to_set().contains(d));
                assert(ks.contains(d));
            }
            assert(self@ =~= before.restrict(
                before.dom().filter(
                    |k: ContactKey|
                        touched@.contains(k) || pairs@.contains((k.0, k.1)) == keep_listed,
                ),
            ));
        }
    }

    /// Drops the entries of body pairs that are no longer in contact. `live`
    /// holds every pair with a manifold this step, including pairs that were
    /// skipped because both bodies sleep. Does nothing with persistence off.
    pub fn retain_pairs(&mut self, live: &BTreeSet<(usize, usize)>)
        ensures
            final(self).persists() == old(self).persists(),
            final(self)@ == (if old(self).persists() {
                keep_live_pairs(old(self)@, live@)
            } else {
                old(self)@
            }),
    {
        if !self.persistence_enabled {
            return;
        }
        let none: BTreeSet<ContactKey> = BTreeSet::new();
        let ghost before = self@;
        self.retain_where(&none, live, true);
        assert(self@ =~= keep_live_pairs(before, live@));
    }

    /// Write-back collection after a solve: within the body pairs in `solved`,
    /// the contact points that did not reappear (keys not in `touched`) are
    /// dropped; entries of pairs that were not solved stay. Does nothing with
    /// persistence off.
    pub fn retain_touched(
        &mut self,
        touched: &BTreeSet<ContactKey>,
        solved: &BTreeSet<(usize, usize)>,
    )
        ensures
            final(self).persists() == old(self).persists(),
            final(self)@ == (if old(self).persists() {
                keep_touched(old(self)@, touched@, solved@)
            } else {
                old(self)@
            }),
    {
        if !self.persistence_enabled {
            return;
        }
        let ghost before = self@;
        self.retain_where(touched, solved, false);
        assert(self@ =~= keep_touched(before, touched@, solved@));
    }
}

} // verus!
