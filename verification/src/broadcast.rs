//! The single-slot broadcast.
//!
//! One producer publishes snapshot messages; any number of subscriptions
//! read them. The broadcast keeps only the newest value, stamped with a
//! version that grows by one per publish. A subscription remembers which
//! version it has seen: a poll hands back the newest value exactly when
//! that value is news to the subscription, so a fresh subscription observes
//! the value current at subscription time, a slow subscription skips
//! intermediate values and lands on the newest, and a caught-up
//! subscription gets nothing. Publishing never waits on any subscription.

use vstd::prelude::*;

use crate::tracker::copy_bytes;

verus! {

/// What the broadcast is, mathematically: the newest value and its
/// version.
#[verifier::ext_equal]
pub struct BroadcastState {
    /// The value of the newest publish.
    pub latest: Seq<u8>,
    /// How many publishes have happened.
    pub version: nat,
}

/// What a subscription is, mathematically: the version it has seen and the
/// value it last observed.
#[verifier::ext_equal]
pub struct SubscriptionState {
    /// The version of the last observed value, if any was observed yet.
    pub seen: Option<nat>,
    /// The last observed value itself.
    pub last: Option<Seq<u8>>,
}

/// The broadcast after one publish: the value replaces the newest, the
/// version grows by one.
pub open spec fn publish_step(b: BroadcastState, v: Seq<u8>) -> BroadcastState {
    BroadcastState { latest: v, version: b.version + 1 }
}

/// The broadcast after a whole run of publishes, oldest first.
pub open spec fn publish_all(b: BroadcastState, vs: Seq<Seq<u8>>) -> BroadcastState
    decreases vs.len(),
{
    if vs.len() == 0 {
        b
    } else {
        publish_step(publish_all(b, vs.drop_last()), vs.last())
    }
}

/// A subscription that has observed nothing yet.
pub open spec fn subscribe_state() -> SubscriptionState {
    SubscriptionState { seen: None, last: None }
}

/// What one poll observes: the newest value, unless the subscription has
/// seen this very version already.
pub open spec fn poll_observes(s: SubscriptionState, b: BroadcastState) -> Option<Seq<u8>> {
    if s.seen == Some(b.version) {
        None
    } else {
        Some(b.latest)
    }
}

/// The subscription after one poll: caught up with the newest version and
/// holding the newest value.
pub open spec fn poll_step(s: SubscriptionState, b: BroadcastState) -> SubscriptionState {
    if s.seen == Some(b.version) {
        s
    } else {
        SubscriptionState { seen: Some(b.version), last: Some(b.latest) }
    }
}

/// A subscription state that can actually arise against a broadcast: it
/// has seen no version the broadcast has not reached yet, and if it is
/// caught up, what it last observed is the newest value.
pub open spec fn attached(s: SubscriptionState, b: BroadcastState) -> bool {
    &&& match s.seen {
        Some(w) => w <= b.version,
        None => true,
    }
    &&& (s.seen == Some(b.version) ==> s.last == Some(b.latest))
}

/// Holds the newest published value and its version.
pub struct Broadcast {
    latest: Vec<u8>,
    version: u64,
}

/// One consumer's handle: remembers what it has observed.
pub struct Subscription {
    seen: Option<u64>,
    last: Option<Vec<u8>>,
}

impl Broadcast {
    /// The broadcast as its mathematical state.
    pub closed spec fn state(self) -> BroadcastState {
        BroadcastState { latest: self.latest@, version: self.version as nat }
    }

    /// A broadcast holding `initial` as the value current from the start.
    pub fn new(initial: Vec<u8>) -> (b: Broadcast)
        ensures
            b.state() == (BroadcastState { latest: initial@, version: 0nat }),
    {
        let b = Broadcast { latest: initial, version: 0 };
        proof {
            assert(b.state() =~= (BroadcastState { latest: initial@, version: 0nat }));
        }
        b
    }

    /// Replaces the newest value. Never waits on any subscription, and
    /// keeps no backlog: a value published over an unobserved one is
    /// simply never seen.
    pub fn publish(&mut self, value: Vec<u8>)
        requires
            old(self).state().version < u64::MAX,
        ensures
            final(self).state() == publish_step(old(self).state(), value@),
    {
        self.latest = value;
        self.version = self.version + 1;
        proof {
            assert(final(self).state() =~= publish_step(old(self).state(), value@));
        }
    }

    /// Opens a subscription. It has observed nothing yet, so its first
    /// poll observes the value current now — never an earlier one.
    pub fn subscribe(&self) -> (s: Subscription)
        ensures
            s.state() == subscribe_state(),
            attached(s.state(), self.state()),
    {
        let s = Subscription { seen: None, last: None };
        proof {
            assert(s.state() =~= subscribe_state());
        }
        s
    }
}

impl Subscription {
    /// The subscription as its mathematical state.
    pub closed spec fn state(self) -> SubscriptionState {
        SubscriptionState {
            seen: match self.seen {
                Some(w) => Some(w as nat),
                None => None,
            },
            last: match self.last {
                Some(v) => Some(v@),
                None => None,
            },
        }
    }

    /// Checks the broadcast once: hands back the newest value exactly when
    /// it is news to this subscription, and nothing when the subscription
    /// is caught up.
    pub fn poll(&mut self, b: &Broadcast) -> (obs: Option<Vec<u8>>)
        ensures
            final(self).state() == poll_step(old(self).state(), b.state()),
            obs is Some <==> poll_observes(old(self).state(), b.state()) is Some,
            obs is Some ==> obs.unwrap()@ == poll_observes(old(self).state(), b.state()).unwrap(),
            attached(old(self).state(), b.state()) ==> attached(final(self).state(), b.state()),
    {
        let caught_up = match self.seen {
            Some(w) => w == b.version,
            None => false,
        };
        if caught_up {
            proof {
                assert(final(self).state() =~= poll_step(old(self).state(), b.state()));
            }
            None
        } else {
            self.seen = Some(b.version);
            let observed = copy_bytes(&b.latest);
            self.last = Some(copy_bytes(&b.latest));
            proof {
                assert(final(self).state() =~= poll_step(old(self).state(), b.state()));
            }
            Some(observed)
        }
    }
}

/// After a run of publishes the broadcast holds the last published value,
/// and its version counts every publish.
pub proof fn lemma_publish_all_latest(b: BroadcastState, vs: Seq<Seq<u8>>)
    requires
        vs.len() > 0,
    ensures
        publish_all(b, vs).latest == vs.last(),
        publish_all(b, vs).version == b.version + vs.len(),
    decreases vs.len(),
{
    if vs.len() > 1 {
        lemma_publish_all_latest(b, vs.drop_last());
    } else {
        assert(vs.drop_last().len() == 0);
        assert(publish_all(b, vs.drop_last()) == b);
    }
}

/// A subscription opened after any run of publishes observes, at its first
/// poll, exactly the value of the last publish, never an earlier one.
pub proof fn lemma_late_subscriber_sees_only_latest(b: BroadcastState, vs: Seq<Seq<u8>>)
    requires
        vs.len() > 0,
    ensures
        poll_observes(subscribe_state(), publish_all(b, vs)) == Some(vs.last()),
{
    lemma_publish_all_latest(b, vs);
}

/// Whatever a subscription has done so far, one more poll leaves it
/// attached and caught up, holding the newest value.
pub proof fn lemma_poll_catches_up(s: SubscriptionState, b: BroadcastState)
    requires
        attached(s, b),
    ensures
        attached(poll_step(s, b), b),
        poll_step(s, b).seen == Some(b.version),
        poll_step(s, b).last == Some(b.latest),
{
}

/// A publish leaves every attached subscription attached: its next poll
/// observes the new value.
pub proof fn lemma_publish_keeps_attached(s: SubscriptionState, b: BroadcastState, v: Seq<u8>)
    requires
        attached(s, b),
    ensures
        attached(s, publish_step(b, v)),
        poll_observes(s, publish_step(b, v)) == Some(v),
{
}

/// Two subscriptions, whenever they were opened and however many values
/// each has skipped, agree after each polls the same broadcast once more:
/// both then hold exactly the newest value.
pub proof fn lemma_subscribers_converge(
    b: BroadcastState,
    s1: SubscriptionState,
    s2: SubscriptionState,
)
    requires
        attached(s1, b),
        attached(s2, b),
    ensures
        poll_step(s1, b).last == Some(b.latest),
        poll_step(s1, b).last == poll_step(s2, b).last,
{
}

/// Observations follow publish order: a poll moves the subscription's seen
/// version forward to the newest, never backward, so no subscription ever
/// observes values in an order other than the order they were published.
pub proof fn lemma_observations_in_publish_order(s: SubscriptionState, b: BroadcastState)
    requires
        attached(s, b),
    ensures
        poll_step(s, b).seen == Some(b.version),
        match s.seen {
            Some(w) => w <= poll_step(s, b).seen.unwrap(),
            None => true,
        },
{
}

} // verus!
