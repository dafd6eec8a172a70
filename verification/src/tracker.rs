//! The membership state machine.
//!
//! `AgentTracker` owns two sets of agent addresses: the authoritative
//! members (`current`), exactly the addresses considered alive right now,
//! and the pending accumulator (`fresh`), the addresses that heartbeated
//! during the open epoch. A heartbeat event enters both sets; the epoch
//! timer commits `fresh` as the new `current` and empties `fresh`. A
//! snapshot is published exactly when the committed set changed by value,
//! and immediately on a heartbeat from a new address (fast join), so leaves
//! are detected at epoch boundaries while joins are detected at once.
//!
//! Both sets are kept as strictly sorted vectors of byte strings, so each
//! set has exactly one stored form and the rendered snapshot lists the
//! addresses in one stable, deterministic order.

use vstd::prelude::*;

use crate::codec;
use crate::order::{
    lemma_insert_sorted, lemma_lex_irreflexive, lemma_lex_transitive, lemma_lex_trichotomy,
    lemma_sorted_unique_representation, lex_lt, lex_lt_bytes, sorted_strict, views_of,
};

verus! {

/// What the tracker is, mathematically: the two sets of addresses.
#[verifier::ext_equal]
pub struct TrackerState {
    /// The authoritative membership: the addresses alive right now.
    pub members: Set<Seq<u8>>,
    /// The pending accumulator: the addresses that heartbeated during the
    /// open epoch.
    pub pending: Set<Seq<u8>>,
}

/// The state after a heartbeat from address `a`: the address joins both
/// sets.
pub open spec fn heartbeat_step(s: TrackerState, a: Seq<u8>) -> TrackerState {
    TrackerState { members: s.members.insert(a), pending: s.pending.insert(a) }
}

/// A heartbeat publishes exactly when its address was not yet a member.
pub open spec fn heartbeat_publishes(s: TrackerState, a: Seq<u8>) -> bool {
    !s.members.contains(a)
}

/// The state after an epoch boundary: the pending set becomes the
/// membership, and the pending set starts over empty.
pub open spec fn expire_step(s: TrackerState) -> TrackerState {
    TrackerState { members: s.pending, pending: Set::empty() }
}

/// An epoch boundary publishes exactly when the committed set differs by
/// value from the set it replaces.
pub open spec fn expire_publishes(s: TrackerState) -> bool {
    s.members != s.pending
}

/// The state after a whole sequence of heartbeats, oldest first, with no
/// epoch boundary among them.
pub open spec fn heartbeats_all(s: TrackerState, evs: Seq<Seq<u8>>) -> TrackerState
    decreases evs.len(),
{
    if evs.len() == 0 {
        s
    } else {
        heartbeat_step(heartbeats_all(s, evs.drop_last()), evs.last())
    }
}

/// Owns the membership; all mutation runs through [`Self::heartbeat`] and
/// [`Self::expire`].
pub struct AgentTracker {
    current: Vec<Vec<u8>>,
    fresh: Vec<Vec<u8>>,
}

impl AgentTracker {
    /// The membership listing in its stored order.
    pub closed spec fn current_seq(self) -> Seq<Seq<u8>> {
        views_of(self.current@)
    }

    /// The pending listing in its stored order.
    pub closed spec fn fresh_seq(self) -> Seq<Seq<u8>> {
        views_of(self.fresh@)
    }

    /// The membership as a set.
    pub closed spec fn members(self) -> Set<Seq<u8>> {
        self.current_seq().to_set()
    }

    /// The pending addresses as a set.
    pub closed spec fn pending(self) -> Set<Seq<u8>> {
        self.fresh_seq().to_set()
    }

    /// The tracker as its mathematical state.
    pub open spec fn state(self) -> TrackerState {
        TrackerState { members: self.members(), pending: self.pending() }
    }

    /// Both listings are strictly sorted, so each set has exactly one
    /// stored form.
    pub closed spec fn wf(self) -> bool {
        &&& sorted_strict(self.current_seq())
        &&& sorted_strict(self.fresh_seq())
    }

    /// A tracker with no members and nothing pending.
    pub fn new() -> (t: AgentTracker)
        ensures
            t.wf(),
            t.members() == Set::<Seq<u8>>::empty(),
            t.pending() == Set::<Seq<u8>>::empty(),
    {
        let t = AgentTracker { current: Vec::new(), fresh: Vec::new() };
        proof {
            assert(t.members() =~= Set::<Seq<u8>>::empty());
            assert(t.pending() =~= Set::<Seq<u8>>::empty());
        }
        t
    }

    /// Records a heartbeat from `addr`: the address joins the pending set
    /// and the membership. Returns whether a new snapshot must be
    /// published, which is the case exactly when the address was not yet a
    /// member — a repeated heartbeat changes nothing and publishes
    /// nothing.
    pub fn heartbeat(&mut self, addr: &Vec<u8>) -> (publish: bool)
        requires
            old(self).wf(),
        ensures
            final(self).wf(),
            final(self).state() == heartbeat_step(old(self).state(), addr@),
            publish == heartbeat_publishes(old(self).state(), addr@),
    {
        insert_sorted(&mut self.fresh, addr);
        let publish = insert_sorted(&mut self.current, addr);
        proof {
            assert(final(self).state() =~= heartbeat_step(old(self).state(), addr@));
        }
        publish
    }

    /// Commits the epoch: the pending set becomes the membership and the
    /// pending set starts over empty, so every address without a heartbeat
    /// during the closed epoch is evicted. Returns whether a new snapshot
    /// must be published, which is the case exactly when the committed set
    /// differs by value from the set it replaces.
    pub fn expire(&mut self) -> (publish: bool)
        requires
            old(self).wf(),
        ensures
            final(self).wf(),
            final(self).state() == expire_step(old(self).state()),
            publish == expire_publishes(old(self).state()),
    {
        let same = address_lists_eq(&self.current, &self.fresh);
        proof {
            if self.members() == self.pending() {
                lemma_sorted_unique_representation(self.current_seq(), self.fresh_seq());
            }
        }
        self.current.clear();
        self.current.append(&mut self.fresh);
        proof {
            assert(final(self).current_seq() =~= old(self).fresh_seq());
            assert(final(self).fresh_seq() =~= Seq::<Seq<u8>>::empty());
            assert(final(self).pending() =~= Set::<Seq<u8>>::empty());
            assert(final(self).state() =~= expire_step(old(self).state()));
        }
        !same
    }

    /// The membership as a listing: every member address once, in the
    /// stored (lexicographic) order.
    pub fn members_list(&self) -> (r: Vec<Vec<u8>>)
        ensures
            views_of(r@) == self.current_seq(),
            views_of(r@).to_set() == self.members(),
            self.wf() ==> sorted_strict(views_of(r@)),
    {
        let mut r: Vec<Vec<u8>> = Vec::new();
        let mut i: usize = 0;
        while i < self.current.len()
            invariant
                i <= self.current.len(),
                views_of(r@) == self.current_seq().take(i as int),
            decreases self.current.len() - i,
        {
            let ghost prev = r@;
            r.push(copy_bytes(&self.current[i]));
            proof {
                assert(views_of(prev).len() == prev.len());
                assert(prev.len() == i);
                assert forall|k: int| 0 <= k < r@.len() implies views_of(r@)[k]
                    == self.current_seq().take(i + 1)[k] by {
                    assert(views_of(r@)[k] == r@[k]@);
                    if k < i {
                        assert(r@[k] == prev[k]);
                        assert(views_of(prev)[k] == prev[k]@);
                    }
                }
                assert(views_of(r@) =~= self.current_seq().take(i + 1));
            }
            i = i + 1;
        }
        proof {
            assert(self.current_seq().take(self.current_seq().len() as int) =~= self.current_seq());
        }
        r
    }

    /// The snapshot message for the present membership: the addresses in
    /// their stored (lexicographic) order, rendered as one textual
    /// message.
    pub fn snapshot_payload(&self) -> (r: Vec<u8>)
        ensures
            r@ == codec::rendered(self.current_seq()),
            self.current_seq().to_set() == self.members(),
            self.wf() ==> sorted_strict(self.current_seq()),
    {
        codec::render_snapshot(&self.current)
    }
}

/// Copies a byte string.
pub(crate) fn copy_bytes(src: &Vec<u8>) -> (r: Vec<u8>)
    ensures
        r@ == src@,
{
    let mut r: Vec<u8> = Vec::new();
    let mut i: usize = 0;
    while i < src.len()
        invariant
            i <= src.len(),
            r@ == src@.take(i as int),
        decreases src.len() - i,
    {
        r.push(src[i]);
        proof {
            assert(r@ =~= src@.take(i + 1));
        }
        i = i + 1;
    }
    proof {
        assert(src@.take(src@.len() as int) =~= src@);
    }
    r
}

/// Whether two byte strings are equal.
fn bytes_eq(a: &Vec<u8>, b: &Vec<u8>) -> (r: bool)
    ensures
        r == (a@ == b@),
{
    if a.len() != b.len() {
        return false;
    }
    let mut i: usize = 0;
    while i < a.len()
        invariant
            i <= a.len(),
            a@.len() == b@.len(),
            forall|j: int| 0 <= j < i ==> a@[j] == b@[j],
        decreases a.len() - i,
    {
        if a[i] != b[i] {
            return false;
        }
        i = i + 1;
    }
    proof {
        assert(a@ =~= b@);
    }
    true
}

/// Whether two address listings are equal, element for element.
fn address_lists_eq(a: &Vec<Vec<u8>>, b: &Vec<Vec<u8>>) -> (r: bool)
    ensures
        r == (views_of(a@) == views_of(b@)),
{
    if a.len() != b.len() {
        proof {
            assert(views_of(a@).len() != views_of(b@).len());
        }
        return false;
    }
    let mut i: usize = 0;
    while i < a.len()
        invariant
            i <= a.len(),
            a@.len() == b@.len(),
            forall|j: int| 0 <= j < i ==> views_of(a@)[j] == views_of(b@)[j],
        decreases a.len() - i,
    {
        if !bytes_eq(&a[i], &b[i]) {
            proof {
                assert(views_of(a@)[i as int] != views_of(b@)[i as int]);
            }
            return false;
        }
        i = i + 1;
    }
    proof {
        assert(views_of(a@) =~= views_of(b@));
    }
    true
}

/// Finds the position of the first element of a strictly sorted address
/// listing that does not come before `addr` in the lexicographic order.
fn lower_bound(v: &Vec<Vec<u8>>, addr: &Vec<u8>) -> (i: usize)
    ensures
        i <= v.len(),
        forall|j: int| 0 <= j < i ==> lex_lt(views_of(v@)[j], addr@),
        i < v.len() ==> !lex_lt(views_of(v@)[i as int], addr@),
{
    let mut i: usize = 0;
    loop
        invariant
            i <= v.len(),
            forall|j: int| 0 <= j < i ==> lex_lt(views_of(v@)[j], addr@),
        decreases v.len() - i,
    {
        if i == v.len() {
            return i;
        }
        if !lex_lt_bytes(&v[i], addr) {
            return i;
        }
        i = i + 1;
    }
}

/// Puts `addr` into a strictly sorted address listing, keeping it strictly
/// sorted; reports whether the listing grew, that is whether the address
/// was absent.
fn insert_sorted(v: &mut Vec<Vec<u8>>, addr: &Vec<u8>) -> (added: bool)
    requires
        sorted_strict(views_of(old(v)@)),
    ensures
        sorted_strict(views_of(final(v)@)),
        views_of(final(v)@).to_set() == views_of(old(v)@).to_set().insert(addr@),
        added == !views_of(old(v)@).to_set().contains(addr@),
{
    let ghost s = views_of(v@);
    let i = lower_bound(v, addr);
    if i < v.len() && bytes_eq(&v[i], addr) {
        proof {
            assert(s[i as int] == addr@);
            assert(s.to_set().contains(addr@));
            assert(s.to_set() =~= s.to_set().insert(addr@));
        }
        return false;
    }
    proof {
        assert forall|j: int| i <= j < s.len() implies lex_lt(addr@, s[j]) by {
            lemma_lex_trichotomy(addr@, s[i as int]);
            if j > i {
                lemma_lex_transitive(addr@, s[i as int], s[j]);
            }
        }
        assert forall|j: int| 0 <= j < s.len() implies s[j] != addr@ by {
            if s[j] == addr@ {
                lemma_lex_irreflexive(addr@);
            }
        }
        if s.to_set().contains(addr@) {
            let k = choose|k: int| 0 <= k < s.len() && s[k] == addr@;
            assert(false);
        }
        lemma_insert_sorted(s, i as int, addr@);
    }
    let fresh_copy = copy_bytes(addr);
    v.insert(i, fresh_copy);
    proof {
        assert(views_of(final(v)@) =~= s.insert(i as int, addr@));
    }
    true
}

/// After a run of heartbeats, the pending set and the membership have
/// grown by exactly the addresses that heartbeated.
pub proof fn lemma_heartbeats_all_sets(s: TrackerState, evs: Seq<Seq<u8>>)
    ensures
        heartbeats_all(s, evs).members == s.members + evs.to_set(),
        heartbeats_all(s, evs).pending == s.pending + evs.to_set(),
    decreases evs.len(),
{
    if evs.len() == 0 {
        assert(evs.to_set() =~= Set::<Seq<u8>>::empty());
        assert(s.members + evs.to_set() =~= s.members);
        assert(s.pending + evs.to_set() =~= s.pending);
    } else {
        lemma_heartbeats_all_sets(s, evs.drop_last());
        assert forall|x: Seq<u8>|
            evs.to_set().contains(x) implies evs.drop_last().to_set().insert(
            evs.last(),
        ).contains(x) by {
            let k = choose|k: int| 0 <= k < evs.len() && evs[k] == x;
            if k < evs.len() - 1 {
                assert(evs.drop_last()[k] == x);
            }
        }
        assert(evs.to_set() =~= evs.drop_last().to_set().insert(evs.last()));
        assert(heartbeats_all(s, evs).members =~= s.members + evs.to_set());
        assert(heartbeats_all(s, evs).pending =~= s.pending + evs.to_set());
    }
}

/// An address that heartbeats at least once during an epoch is a member
/// the moment the heartbeat lands, and is still a member in the set
/// committed at that epoch's boundary.
pub proof fn lemma_heartbeat_within_epoch_keeps_member(
    s: TrackerState,
    evs: Seq<Seq<u8>>,
    a: Seq<u8>,
)
    requires
        evs.contains(a),
    ensures
        heartbeats_all(s, evs).members.contains(a),
        expire_step(heartbeats_all(s, evs)).members.contains(a),
{
    lemma_heartbeats_all_sets(s, evs);
}

/// An address that sends no heartbeat during two full consecutive epochs
/// is absent from the membership committed at the second boundary.
pub proof fn lemma_two_silent_epochs_evict(
    s: TrackerState,
    evs1: Seq<Seq<u8>>,
    evs2: Seq<Seq<u8>>,
    a: Seq<u8>,
)
    requires
        !evs1.contains(a),
        !evs2.contains(a),
    ensures
        !expire_step(heartbeats_all(expire_step(heartbeats_all(s, evs1)), evs2)).members.contains(
            a,
        ),
{
    let boundary1 = expire_step(heartbeats_all(s, evs1));
    lemma_heartbeats_all_sets(boundary1, evs2);
    assert(!evs2.to_set().contains(a));
}

} // verus!
