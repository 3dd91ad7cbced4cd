//! Contact start/end events: the difference between the body pairs in contact
//! in the previous step and in this one.
use vstd::prelude::*;

verus! {

broadcast use vstd::seq_lib::group_seq_properties;

/// Whether `v` holds `pair`.
fn holds_pair(v: &Vec<(usize, usize)>, pair: (usize, usize)) -> (found: bool)
    ensures
        found == v@.contains(pair),
{
    let mut i: usize = 0;
    while i < v.len()
        invariant
            i <= v@.len(),
            forall|k: int| 0 <= k < i ==> v@[k] != pair,
        decreases v@.len() - i,
    {
        let p = v[i];
        if p.0 == pair.0 && p.1 == pair.1 {
            assert(v@[i as int] == pair);
            return true;
        }
        i = i + 1;
    }
    false
}

/// The set of body pairs `(body_a, body_b)` that were in contact after the
/// last step, each held once.
pub struct ContactPairs {
    pairs: Vec<(usize, usize)>,
}

impl View for ContactPairs {
    type V = Set<(usize, usize)>;

    closed spec fn view(&self) -> Set<(usize, usize)> {
        self.pairs@.to_set()
    }
}

/// What changed between two steps: pairs that came into contact and pairs
/// that separated. Neither list repeats a pair.
pub struct ContactTransitions {
    pub started: Vec<(usize, usize)>,
    pub ended: Vec<(usize, usize)>,
}

/// Kind of a contact event.
#[derive(Clone, Copy, PartialEq, Eq, Debug, Structural)]
pub enum ContactEventKind {
    Started,
    Ended,
}

/// One contact event: the pair, encoded by [`contact_source_id`], and what happened.
#[derive(Clone, Copy, PartialEq, Eq, Debug, Structural)]
pub struct ContactEvent {
    pub source: u64,
    pub kind: ContactEventKind,
}

/// Event source of pair `(a, b)`: `a` in the high 32 bits, `b` in the low ones.
pub open spec fn source_id_of(a: usize, b: usize) -> u64 {
    ((a as u64) << 32u64) | (b as u64)
}

/// Event source of the contact between bodies `a` and `b`. For indices below
/// 2^32 it is `a * 2^32 + b`.
pub fn contact_source_id(a: usize, b: usize) -> (id: u64)
    ensures
        id == source_id_of(a, b),
        a < 0x1_0000_0000 && b < 0x1_0000_0000 ==> id == a * 0x1_0000_0000 + b,
{
    let x: u64 = a as u64;
    let y: u64 = b as u64;
    assert(x < 0x1_0000_0000 && y < 0x1_0000_0000 ==> (x << 32u64) | y == x * 0x1_0000_0000 + y)
        by (bit_vector);
    (x << 32u64) | y
}

/// Distinct pairs of indices below 2^32 get distinct event sources.
pub proof fn lemma_source_id_injective(a: usize, b: usize, c: usize, d: usize)
    requires
        a < 0x1_0000_0000,
        b < 0x1_0000_0000,
        c < 0x1_0000_0000,
        d < 0x1_0000_0000,
        source_id_of(a, b) == source_id_of(c, d),
    ensures
        a == c,
        b == d,
{
    let (x, y, z, w) = (a as u64, b as u64, c as u64, d as u64);
    assert(x < 0x1_0000_0000 && y < 0x1_0000_0000 && z < 0x1_0000_0000 && w < 0x1_0000_0000 && (x
        << 32u64) | y == (z << 32u64) | w ==> x == z && y == w) by (bit_vector);
}

/// The pairs in contact now are the old ones, plus those that started, minus
/// those that ended; no pair both starts and ends; and a step whose contacts
/// equal the previous ones reports nothing.
pub proof fn lemma_transitions_laws(previous: Set<(usize, usize)>, current: Set<(usize, usize)>)
    ensures
        current == previous.union(current.difference(previous)).difference(
            previous.difference(current),
        ),
        current.difference(previous).disjoint(previous.difference(current)),
        previous == current ==> current.difference(previous).is_empty() && previous.difference(
            current,
        ).is_empty(),
{
    assert(current =~= previous.union(current.difference(previous)).difference(
        previous.difference(current),
    ));
    if previous == current {
        assert(current.difference(previous) =~= Set::empty());
    }
}

impl ContactPairs {
    /// No pair is held twice.
    pub closed spec fn wf(&self) -> bool {
        self.pairs@.no_duplicates()
    }

    /// No contacts yet.
    pub fn new() -> (c: ContactPairs)
        ensures
            c.wf(),
            c@ == Set::<(usize, usize)>::empty(),
    {
        let c = ContactPairs { pairs: Vec::new() };
        assert(c@ =~= Set::<(usize, usize)>::empty());
        c
    }

    /// Whether `pair` was in contact.
    pub fn contains(&self, pair: (usize, usize)) -> (found: bool)
        ensures
            found == self@.contains(pair),
    {
        holds_pair(&self.pairs, pair)
    }

    /// Records the pairs in contact this step (`current` may repeat a pair:
    /// one body pair can carry several manifolds) and reports which pairs
    /// started and which ended touching.
    pub fn update(&mut self, current: &Vec<(usize, usize)>) -> (t: ContactTransitions)
        requires
            old(self).wf(),
        ensures
            final(self).wf(),
            final(self)@ == current@.to_set(),
            t.started@.no_duplicates(),
            t.started@.to_set() == current@.to_set().difference(old(self)@),
            t.ended@.no_duplicates(),
            t.ended@.to_set() == old(self)@.difference(current@.to_set()),
    {
        let mut now: Vec<(usize, usize)> = Vec::new();
        let mut started: Vec<(usize, usize)> = Vec::new();
        let mut i: usize = 0;
        while i < current.len()
            invariant
                i <= current@.len(),
                now@.no_duplicates(),
                started@.no_duplicates(),
                forall|p: (usize, usize)| now@.contains(p) <==> current@.subrange(0, i as int).contains(p),
                forall|p: (usize, usize)|
                    started@.contains(p) <==> (now@.contains(p) && !self.pairs@.contains(p)),
            decreases current@.len() - i,
        {
            let p = current[i];
            assert(current@.subrange(0, i + 1) =~= current@.subrange(0, i as int).push(p));
            if !holds_pair(&now, p) {
                now.push(p);
                if !holds_pair(&self.pairs, p) {
                    started.push(p);
                }
            }
            i = i + 1;
        }
        assert(current@.subrange(0, current@.len() as int) =~= current@);
        let mut ended: Vec<(usize, usize)> = Vec::new();
        let mut j: usize = 0;
        while j < self.pairs.len()
            invariant
                j <= self.pairs@.len(),
                self.pairs@.no_duplicates(),
                ended@.no_duplicates(),
                forall|p: (usize, usize)|
                    ended@.contains(p) <==> (self.pairs@.subrange(0, j as int).contains(p)
                        && !now@.contains(p)),
            decreases self.pairs@.len() - j,
        {
            let p = self.pairs[j];
            assert(self.pairs@.subrange(0, j + 1) =~= self.pairs@.subrange(0, j as int).push(p));
            if !holds_pair(&now, p) {
                proof {
                    if ended@.contains(p) {
                        let k = choose|k: int| 0 <= k < j && self.pairs@[k] == p;
                        assert(self.pairs@[k] == self.pairs@[j as int]);
                    }
                }
                ended.push(p);
            }
            j = j + 1;
        }
        assert(self.pairs@.subrange(0, self.pairs@.len() as int) =~= self.pairs@);
        let ghost old_set = self@;
        self.pairs = now;
        let t = ContactTransitions { started, ended };
        assert(self@ =~= current@.to_set());
        assert(t.started@.to_set() =~= current@.to_set().difference(old_set));
        assert(t.ended@.to_set() =~= old_set.difference(current@.to_set()));
        t
    }
}

/// The events for a step's transitions: one `Started` event per new pair,
/// then one `Ended` event per separated pair, in list order.
pub fn contact_events(t: &ContactTransitions) -> (events: Vec<ContactEvent>)
    ensures
        events@.len() == t.started@.len() + t.ended@.len(),
        forall|k: int|
            0 <= k < t.started@.len() ==> #[trigger] events@[k] == (ContactEvent {
                source: source_id_of(t.started@[k].0, t.started@[k].1),
                kind: ContactEventKind::Started,
            }),
        forall|k: int|
            0 <= k < t.ended@.len() ==> #[trigger] events@[t.started@.len() + k] == (ContactEvent {
                source: source_id_of(t.ended@[k].0, t.ended@[k].1),
                kind: ContactEventKind::Ended,
            }),
{
    let mut events: Vec<ContactEvent> = Vec::new();
    let mut i: usize = 0;
    while i < t.started.len()
        invariant
            i <= t.started@.len(),
            events@.len() == i,
            forall|k: int|
                0 <= k < i ==> #[trigger] events@[k] == (ContactEvent {
                    source: source_id_of(t.started@[k].0, t.started@[k].1),
                    kind: ContactEventKind::Started,
                }),
        decreases t.started@.len() - i,
    {
        let (a, b) = t.started[i];
        events.push(ContactEvent { source: contact_source_id(a, b), kind: ContactEventKind::Started });
        i = i + 1;
    }
    let mut j: usize = 0;
    while j < t.ended.len()
        invariant
            j <= t.ended@.len(),
            events@.len() == t.started@.len() + j,
            forall|k: int|
                0 <= k < t.started@.len() ==> #[trigger] events@[k] == (ContactEvent {
                    source: source_id_of(t.started@[k].0, t.started@[k].1),
                    kind: ContactEventKind::Started,
                }),
            forall|k: int|
                0 <= k < j ==> #[trigger] events@[t.started@.len() + k] == (ContactEvent {
                    source: source_id_of(t.ended@[k].0, t.ended@[k].1),
                    kind: ContactEventKind::Ended,
                }),
        decreases t.ended@.len() - j,
    {
        let (a, b) = t.ended[j];
        events.push(ContactEvent { source: contact_source_id(a, b), kind: ContactEventKind::Ended });
        j = j + 1;
    }
    events
}

} // verus!
