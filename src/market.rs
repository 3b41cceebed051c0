//! The market link's bookkeeping: which client follows which stream,
//! reference counts of the streams subscribed upstream, and the upstream
//! request ids awaiting an answer. Every method decides what the link sends;
//! the caller performs the sending.
use vstd::prelude::*;
use crate::stream::{upstream_name, upstream_of};
use crate::tally::{
    lemma_total_absent, lemma_total_positive, lemma_total_push, lemma_total_concat, lemma_total_remove,
    lemma_total_unit_bound, lemma_total_update, share, total,
};

verus! {

/// Milliseconds between two reconnect attempts of the market link.
pub const MARKET_RETRY_MS: u64 = 30000;

/// One client following one stream (by its client-facing name).
#[derive(Debug)]
pub struct Membership {
    pub client: u64,
    pub stream: String,
}

/// How many clients follow a stream that is subscribed upstream.
#[derive(Debug)]
pub struct StreamCount {
    pub stream: String,
    pub count: usize,
}

/// An upstream request whose answer goes back to `client` under the id the
/// client used.
#[derive(Debug)]
pub struct Pending {
    pub upstream_id: i64,
    pub client: u64,
    pub request_id: i64,
}

/// What a subscribe request leads to.
#[derive(Debug)]
pub enum SubscribeAction {
    /// The client has not logged in: answer `NOT_LOGIN`.
    NotLogin,
    /// Nothing is new upstream: answer success to the client now.
    Done,
    /// Send one upstream `SUBSCRIBE` with this id for these streams
    /// (`keys` by their client names, `streams` by the exchange's names);
    /// its answer is routed back to the client.
    Upstream { id: i64, keys: Vec<String>, streams: Vec<String> },
}

/// An upstream request to send under `id`, for `keys` (client names) that
/// the exchange knows as `streams`.
#[derive(Debug)]
pub struct UpstreamRequest {
    pub id: i64,
    pub keys: Vec<String>,
    pub streams: Vec<String>,
}

pub open spec fn membership_weights(m: Seq<Membership>) -> Seq<(Seq<char>, int)> {
    m.map_values(|x: Membership| (x.stream@, 1int))
}

pub open spec fn count_weights(c: Seq<StreamCount>) -> Seq<(Seq<char>, int)> {
    c.map_values(|x: StreamCount| (x.stream@, x.count as int))
}

pub open spec fn names(v: Seq<String>) -> Seq<Seq<char>> {
    v.map_values(|s: String| s@)
}

/// The market link's state: connected clients, logged-in subscribers,
/// who follows what, the reference counts, the upstream requests awaiting
/// an answer, the next upstream request id, and the link's reconnect state.
pub struct Market {
    clients: Vec<u64>,
    subscribers: Vec<u64>,
    memberships: Vec<Membership>,
    counts: Vec<StreamCount>,
    pending: Vec<Pending>,
    next_id: i64,
    disconnected: bool,
    last_attempt: u64,
}

impl Market {
    /// The reference count of stream `t`: the number held for it in the
    /// table (zero when it is not subscribed upstream).
    pub closed spec fn refcount(&self, t: Seq<char>) -> int {
        total(count_weights(self.counts@), t)
    }

    /// The number of clients that follow stream `t`.
    pub closed spec fn followers(&self, t: Seq<char>) -> int {
        total(membership_weights(self.memberships@), t)
    }

    /// Whether client `c` follows stream `t`.
    pub closed spec fn follows(&self, c: u64, t: Seq<char>) -> bool {
        has_pair(self.memberships@, c, t)
    }

    /// The clients that follow stream `t`.
    pub closed spec fn follower_set(&self, t: Seq<char>) -> Set<u64> {
        Set::new(|c: u64| self.follows(c, t))
    }

    /// The streams subscribed upstream, by their client names.
    pub closed spec fn upstream_set(&self) -> Set<Seq<char>> {
        Set::new(|t: Seq<char>| exists|k: int| 0 <= k < self.counts@.len() && #[trigger] self.counts@[k].stream@ == t)
    }

    pub closed spec fn connected(&self, c: u64) -> bool {
        self.clients@.contains(c)
    }

    pub closed spec fn logged_in(&self, c: u64) -> bool {
        self.subscribers@.contains(c)
    }

    /// The client and request id an upstream answer with id `id` goes to.
    pub closed spec fn route(&self, id: i64) -> Option<(u64, i64)> {
        route_in(self.pending@, id)
    }

    pub closed spec fn next_id_spec(&self) -> i64 {
        self.next_id
    }

    pub closed spec fn is_disconnected(&self) -> bool {
        self.disconnected
    }

    pub closed spec fn last_attempt_spec(&self) -> u64 {
        self.last_attempt
    }

    /// Everything but the link state (down or not, last attempt) is equal.
    pub closed spec fn same_tables_spec(&self, other: &Market) -> bool {
        &&& self.clients@ == other.clients@
        &&& self.subscribers@ == other.subscribers@
        &&& self.memberships@ == other.memberships@
        &&& self.counts@ == other.counts@
        &&& self.pending@ == other.pending@
        &&& self.next_id == other.next_id
    }

    /// Two tables that agree on everything but the link state agree on
    /// every observation of their subscriptions.
    pub proof fn lemma_same_tables(a: &Market, b: &Market)
        requires
            a.same_tables_spec(b),
        ensures
            forall|c: u64| a.connected(c) == b.connected(c),
            forall|c: u64| a.logged_in(c) == b.logged_in(c),
            forall|c: u64, t: Seq<char>| a.follows(c, t) == b.follows(c, t),
            forall|t: Seq<char>| #[trigger] a.refcount(t) == b.refcount(t),
            forall|id: i64| a.route(id) == b.route(id),
            a.next_id_spec() == b.next_id_spec(),
    {
        lemma_same_follows(a, b);
    }

    pub closed spec fn wf(&self) -> bool {
        &&& self.clients@.no_duplicates()
        &&& self.subscribers@.no_duplicates()
        &&& forall|i: int| 0 <= i < self.subscribers@.len() ==> self.clients@.contains(#[trigger] self.subscribers@[i])
        &&& forall|i: int| 0 <= i < self.memberships@.len() ==> self.subscribers@.contains(#[trigger] self.memberships@[i].client)
        &&& forall|i: int, j: int|
            0 <= i < j < self.memberships@.len() ==> !(self.memberships@[i].client == self.memberships@[j].client
                && #[trigger] self.memberships@[i].stream@ == #[trigger] self.memberships@[j].stream@)
        &&& forall|i: int, j: int|
            0 <= i < j < self.counts@.len() ==> #[trigger] self.counts@[i].stream@ != #[trigger] self.counts@[j].stream@
        &&& forall|i: int| 0 <= i < self.counts@.len() ==> #[trigger] self.counts@[i].count > 0
        &&& forall|t: Seq<char>| #[trigger] self.refcount(t) == self.followers(t)
        &&& ids_unique(self.pending@)
        &&& self.next_id >= 1
    }

    /// An empty table; upstream request ids start at 1 (0 is taken by the
    /// `SET_PROPERTY combined=true` frame sent on connect).
    pub fn new(now_ms: u64) -> (r: Market)
        ensures
            r.wf(),
            forall|t: Seq<char>| r.refcount(t) == 0,
            forall|c: u64, t: Seq<char>| !r.follows(c, t),
            forall|c: u64| !r.connected(c) && !r.logged_in(c),
            forall|id: i64| r.route(id) is None,
            r.next_id_spec() == 1,
            !r.is_disconnected(),
            r.last_attempt_spec() == now_ms,
    {
        let r = Market {
            clients: Vec::new(),
            subscribers: Vec::new(),
            memberships: Vec::new(),
            counts: Vec::new(),
            pending: Vec::new(),
            next_id: 1,
            disconnected: false,
            last_attempt: now_ms,
        };
        assert forall|t: Seq<char>| #[trigger] r.refcount(t) == r.followers(t) && r.refcount(t) == 0 by {
            assert(count_weights(r.counts@) =~= Seq::empty());
            assert(membership_weights(r.memberships@) =~= Seq::empty());
        }
        r
    }

    /// Whether the upstream connection is down.
    pub fn disconnected(&self) -> (r: bool)
        ensures
            r == self.is_disconnected(),
    {
        self.disconnected
    }

    /// Registers a newly accepted client connection.
    pub fn handle_connect(&mut self, client: u64)
        requires
            old(self).wf(),
        ensures
            final(self).wf(),
            forall|c: u64| final(self).connected(c) == (old(self).connected(c) || c == client),
            forall|c: u64| final(self).logged_in(c) == old(self).logged_in(c),
            forall|c: u64, t: Seq<char>| final(self).follows(c, t) == old(self).follows(c, t),
            forall|t: Seq<char>| final(self).refcount(t) == old(self).refcount(t),
            forall|id: i64| final(self).route(id) == old(self).route(id),
            final(self).next_id_spec() == old(self).next_id_spec(),
            final(self).is_disconnected() == old(self).is_disconnected(),
            final(self).last_attempt_spec() == old(self).last_attempt_spec(),
    {
        if !contains_id(&self.clients, client) {
            self.clients.push(client);
            assert forall|a: int, b: int| 0 <= a < b < self.clients@.len() implies self.clients@[a]
                != self.clients@[b] by {
                if b == self.clients@.len() - 1 {
                    assert(old(self).clients@[a] == self.clients@[a]);
                } else {
                    assert(old(self).clients@[a] != old(self).clients@[b]);
                }
            }
            assert forall|i: int| 0 <= i < self.subscribers@.len() implies self.clients@.contains(
                #[trigger] self.subscribers@[i],
            ) by {
                assert(old(self).clients@.contains(self.subscribers@[i]));
                let k = choose|k: int| 0 <= k < old(self).clients@.len() && old(self).clients@[k] == self.subscribers@[i];
                assert(self.clients@[k] == old(self).clients@[k]);
            }
            assert forall|t: Seq<char>| #[trigger] self.refcount(t) == self.followers(t) by {
                assert(old(self).refcount(t) == old(self).followers(t));
            }
            proof {
                lemma_same_follows(self, old(self));
            }
            assert forall|c: u64| self.connected(c) == (old(self).connected(c) || c == client) by {
                if old(self).connected(c) {
                    let k = choose|k: int| 0 <= k < old(self).clients@.len() && old(self).clients@[k] == c;
                    assert(self.clients@[k] == c);
                }
                if self.connected(c) && c != client {
                    let k = choose|k: int| 0 <= k < self.clients@.len() && self.clients@[k] == c;
                    assert(old(self).clients@[k] == c);
                }
                if c == client {
                    assert(self.clients@[self.clients@.len() - 1] == c);
                }
            }
        }
    }

    /// Makes a connected client a market subscriber (login). A client that
    /// is not connected, or is already a subscriber, changes nothing.
    pub fn handle_login(&mut self, client: u64)
        requires
            old(self).wf(),
        ensures
            final(self).wf(),
            forall|c: u64|
                final(self).logged_in(c) == (old(self).logged_in(c) || (c == client && old(self).connected(client))),
            forall|c: u64| final(self).connected(c) == old(self).connected(c),
            forall|c: u64, t: Seq<char>| final(self).follows(c, t) == old(self).follows(c, t),
            forall|t: Seq<char>| final(self).refcount(t) == old(self).refcount(t),
            forall|id: i64| final(self).route(id) == old(self).route(id),
            final(self).next_id_spec() == old(self).next_id_spec(),
            final(self).is_disconnected() == old(self).is_disconnected(),
            final(self).last_attempt_spec() == old(self).last_attempt_spec(),
    {
        if contains_id(&self.clients, client) && !contains_id(&self.subscribers, client) {
            self.subscribers.push(client);
            assert forall|a: int, b: int| 0 <= a < b < self.subscribers@.len() implies self.subscribers@[a]
                != self.subscribers@[b] by {
                if b == self.subscribers@.len() - 1 {
                    assert(old(self).subscribers@[a] == self.subscribers@[a]);
                } else {
                    assert(old(self).subscribers@[a] != old(self).subscribers@[b]);
                }
            }
            assert forall|i: int| 0 <= i < self.memberships@.len() implies self.subscribers@.contains(
                #[trigger] self.memberships@[i].client,
            ) by {
                let c = self.memberships@[i].client;
                assert(old(self).subscribers@.contains(c));
                let k = choose|k: int| 0 <= k < old(self).subscribers@.len() && old(self).subscribers@[k] == c;
                assert(self.subscribers@[k] == c);
            }
            assert forall|t: Seq<char>| #[trigger] self.refcount(t) == self.followers(t) by {
                assert(old(self).refcount(t) == old(self).followers(t));
            }
            proof {
                lemma_same_follows(self, old(self));
            }
            assert forall|c: u64|
                self.logged_in(c) == (old(self).logged_in(c) || (c == client && old(self).connected(client))) by {
                if old(self).logged_in(c) {
                    let k = choose|k: int| 0 <= k < old(self).subscribers@.len() && old(self).subscribers@[k] == c;
                    assert(self.subscribers@[k] == c);
                }
                if self.logged_in(c) && c != client {
                    let k = choose|k: int| 0 <= k < self.subscribers@.len() && self.subscribers@[k] == c;
                    assert(old(self).subscribers@[k] == c);
                }
                if c == client {
                    assert(self.subscribers@[self.subscribers@.len() - 1] == c);
                }
            }
            assert forall|i: int| 0 <= i < self.subscribers@.len() implies self.clients@.contains(
                #[trigger] self.subscribers@[i],
            ) by {
                if i < old(self).subscribers@.len() {
                    assert(self.subscribers@[i] == old(self).subscribers@[i]);
                }
            }
        }
    }
}

impl Market {
    /// Index of the table entry for `stream`, if it is subscribed upstream.
    fn find_count(&self, stream: &String) -> (r: Option<usize>)
        ensures
            r matches Some(k) ==> k < self.counts@.len() && self.counts@[k as int].stream@ == stream@,
            r is None ==> forall|k: int| 0 <= k < self.counts@.len() ==> self.counts@[k].stream@ != stream@,
    {
        let mut i: usize = 0;
        while i < self.counts.len()
            invariant
                i <= self.counts@.len(),
                forall|k: int| 0 <= k < i ==> self.counts@[k].stream@ != stream@,
            decreases self.counts@.len() - i,
        {
            if self.counts[i].stream == *stream {
                return Some(i);
            }
            i = i + 1;
        }
        None
    }

    /// Whether `client` follows `stream`.
    pub fn is_subscribed(&self, client: u64, stream: &String) -> (r: bool)
        ensures
            r == self.follows(client, stream@),
    {
        let mut i: usize = 0;
        while i < self.memberships.len()
            invariant
                i <= self.memberships@.len(),
                forall|k: int|
                    0 <= k < i ==> !(self.memberships@[k].client == client && self.memberships@[k].stream@
                        == stream@),
            decreases self.memberships@.len() - i,
        {
            if self.memberships[i].client == client && self.memberships[i].stream == *stream {
                assert(self.memberships@[i as int].stream@ == stream@);
                return true;
            }
            i = i + 1;
        }
        false
    }

    /// The reference count of `stream`.
    pub fn refcount_of(&self, stream: &String) -> (r: usize)
        requires
            self.wf(),
        ensures
            r as int == self.refcount(stream@),
    {
        proof {
            lemma_total_positive(count_weights(self.counts@), stream@);
        }
        match self.find_count(stream) {
            Some(k) => {
                proof {
                    self.lemma_refcount_entry(k as int);
                }
                self.counts[k].count
            },
            None => {
                proof {
                    lemma_total_absent(count_weights(self.counts@), stream@);
                }
                0
            },
        }
    }

    proof fn lemma_refcount_entry(&self, k: int)
        requires
            self.wf(),
            0 <= k < self.counts@.len(),
        ensures
            self.refcount(self.counts@[k].stream@) == self.counts@[k].count,
    {
        let q = count_weights(self.counts@);
        let t = self.counts@[k].stream@;
        let a = q.subrange(0, k);
        let b = q.subrange(k + 1, q.len() as int);
        assert(q =~= a.push(q[k]) + b);
        lemma_total_concat(a.push(q[k]), b, t);
        lemma_total_push(a, q[k], t);
        assert forall|j: int| 0 <= j < a.len() implies a[j].0 != t by {
            assert(a[j] == q[j]);
            assert(self.counts@[j].stream@ != self.counts@[k].stream@);
        }
        assert forall|j: int| 0 <= j < b.len() implies b[j].0 != t by {
            assert(b[j] == q[k + 1 + j]);
            assert(self.counts@[k].stream@ != self.counts@[k + 1 + j].stream@);
        }
        lemma_total_absent(a, t);
        lemma_total_absent(b, t);
    }

    /// Adds `client` as a follower of `x`; gives whether `x` was not
    /// subscribed upstream before.
    fn follow(&mut self, client: u64, x: &String) -> (fresh: bool)
        requires
            old(self).wf(),
            old(self).logged_in(client),
            !old(self).follows(client, x@),
        ensures
            final(self).wf(),
            final(self).clients@ == old(self).clients@,
            final(self).subscribers@ == old(self).subscribers@,
            final(self).pending@ == old(self).pending@,
            final(self).next_id == old(self).next_id,
            final(self).disconnected == old(self).disconnected,
            final(self).last_attempt == old(self).last_attempt,
            forall|c: u64, t: Seq<char>|
                final(self).follows(c, t) == (old(self).follows(c, t) || (c == client && t == x@)),
            forall|t: Seq<char>|
                #[trigger] final(self).refcount(t) == old(self).refcount(t) + if t == x@ { 1int } else { 0int },
            fresh == (old(self).refcount(x@) == 0),
    {
        let ghost before = *self;
        let found = self.find_count(x);
        proof {
            lemma_total_unit_bound(membership_weights(before.memberships@), x@);
            lemma_total_positive(count_weights(before.counts@), x@);
        }
        self.memberships.push(Membership { client, stream: x.clone() });
        let _ = self.memberships.len();
        let fresh = match found {
            Some(k) => {
                proof {
                    before.lemma_refcount_entry(k as int);
                }
                let n = self.counts[k].count;
                self.counts.set(k, StreamCount { stream: x.clone(), count: n + 1 });
                proof {
                    assert(count_weights(self.counts@) =~= count_weights(before.counts@).update(
                        k as int,
                        (x@, (n + 1) as int),
                    ));
                    assert forall|t: Seq<char>|
                        #[trigger] total(count_weights(self.counts@), t) == total(count_weights(before.counts@), t)
                            + if t == x@ { 1int } else { 0int } by {
                        lemma_total_update(count_weights(before.counts@), k as int, (x@, (n + 1) as int), t);
                    }
                    assert forall|a: int, b: int| 0 <= a < b < self.counts@.len() implies #[trigger] self.counts@[a].stream@
                        != #[trigger] self.counts@[b].stream@ by {
                        assert(before.counts@[a].stream@ != before.counts@[b].stream@);
                    }
                }
                false
            },
            None => {
                proof {
                    lemma_total_absent(count_weights(before.counts@), x@);
                }
                self.counts.push(StreamCount { stream: x.clone(), count: 1 });
                proof {
                    assert(count_weights(self.counts@) =~= count_weights(before.counts@).push((x@, 1int)));
                    assert forall|t: Seq<char>|
                        #[trigger] total(count_weights(self.counts@), t) == total(count_weights(before.counts@), t)
                            + if t == x@ { 1int } else { 0int } by {
                        lemma_total_push(count_weights(before.counts@), (x@, 1int), t);
                    }
                    assert forall|a: int, b: int| 0 <= a < b < self.counts@.len() implies #[trigger] self.counts@[a].stream@
                        != #[trigger] self.counts@[b].stream@ by {
                        if b < before.counts@.len() {
                            assert(before.counts@[a].stream@ != before.counts@[b].stream@);
                        }
                    }
                }
                true
            },
        };
        proof {
            assert(membership_weights(self.memberships@) =~= membership_weights(before.memberships@).push((x@, 1int)));
            assert forall|t: Seq<char>|
                #[trigger] total(membership_weights(self.memberships@), t) == total(membership_weights(before.memberships@), t)
                    + if t == x@ { 1int } else { 0int } by {
                lemma_total_push(membership_weights(before.memberships@), (x@, 1int), t);
            }
            assert forall|t: Seq<char>| #[trigger] self.refcount(t) == self.followers(t) by {
                assert(before.refcount(t) == before.followers(t));
            }
            let m = self.memberships@;
            let last = m.len() - 1;
            assert forall|a: int, b: int| 0 <= a < b < m.len() implies !(m[a].client == m[b].client
                && #[trigger] m[a].stream@ == #[trigger] m[b].stream@) by {
                if b == last {
                    assert(m[a] == before.memberships@[a]);
                    if m[a].client == client && m[a].stream@ == x@ {
                        assert(before.follows(client, x@));
                    }
                } else {
                    assert(before.memberships@[a].stream@ != before.memberships@[b].stream@
                        || before.memberships@[a].client != before.memberships@[b].client);
                }
            }
            assert forall|a: int| 0 <= a < m.len() implies self.subscribers@.contains(#[trigger] m[a].client) by {
                if a < last {
                    assert(m[a] == before.memberships@[a]);
                }
            }
            assert forall|c: u64, t: Seq<char>|
                self.follows(c, t) == (before.follows(c, t) || (c == client && t == x@)) by {
                if before.follows(c, t) {
                    let k = choose|k: int|
                        0 <= k < before.memberships@.len() && before.memberships@[k].client == c
                            && #[trigger] before.memberships@[k].stream@ == t;
                    assert(m[k] == before.memberships@[k]);
                }
                if c == client && t == x@ {
                    assert(m[last].stream@ == t);
                }
                if self.follows(c, t) {
                    let k = choose|k: int|
                        0 <= k < m.len() && m[k].client == c && #[trigger] m[k].stream@ == t;
                    if k < last {
                        assert(m[k] == before.memberships@[k]);
                    }
                }
            }
        }
        fresh
    }

    /// Subscribes `client` to `streams` (client names, already validated),
    /// for the client's request `request_id`. Each stream the client does
    /// not follow yet gains the client and one count; the streams whose
    /// count leaves zero are subscribed upstream in one request, whose
    /// answer goes back to the client under `request_id`.
    pub fn handle_subscribe(&mut self, client: u64, request_id: i64, streams: &Vec<String>) -> (r: SubscribeAction)
        requires
            old(self).wf(),
        ensures
            final(self).wf(),
            (r is NotLogin) == !old(self).logged_in(client),
            r is NotLogin ==> *final(self) == *old(self),
            forall|c: u64| final(self).connected(c) == old(self).connected(c),
            forall|c: u64| final(self).logged_in(c) == old(self).logged_in(c),
            final(self).is_disconnected() == old(self).is_disconnected(),
            final(self).last_attempt_spec() == old(self).last_attempt_spec(),
            !(r is NotLogin) ==> forall|c: u64, t: Seq<char>|
                final(self).follows(c, t) == (old(self).follows(c, t) || (c == client && names(streams@).contains(t))),
            forall|t: Seq<char>|
                #[trigger] final(self).refcount(t) == old(self).refcount(t) + if final(self).follows(client, t)
                    && !old(self).follows(client, t) {
                    1int
                } else {
                    0int
                },
            r is Done ==> forall|t: Seq<char>| !(old(self).refcount(t) == 0 && #[trigger] final(self).refcount(t) > 0),
            (forall|t: Seq<char>| #[trigger] names(streams@).contains(t) ==> old(self).follows(client, t)) ==> {
                &&& !(r is Upstream)
                &&& forall|t: Seq<char>| #[trigger] final(self).refcount(t) == old(self).refcount(t)
            },
            !(r is Upstream) ==> final(self).next_id_spec() == old(self).next_id_spec(),
            !(r is Upstream) ==> forall|id: i64| final(self).route(id) == old(self).route(id),
            r matches SubscribeAction::Upstream { id, keys, streams: up } ==> {
                &&& id == old(self).next_id_spec()
                &&& keys@.len() > 0
                &&& names(keys@).no_duplicates()
                &&& forall|t: Seq<char>|
                    (names(keys@).contains(t) <==> (old(self).refcount(t) == 0 && #[trigger] final(self).refcount(t) > 0))
                &&& up@.len() == keys@.len()
                &&& forall|j: int| 0 <= j < keys@.len() ==> #[trigger] up@[j]@ == upstream_of(keys@[j]@)
                &&& final(self).route(id) == Some((client, request_id))
                &&& forall|other: i64| other != id ==> final(self).route(other) == old(self).route(other)
                &&& final(self).next_id_spec() == following_id(id)
            },
    {
        if !contains_id(&self.subscribers, client) {
            return SubscribeAction::NotLogin;
        }
        let mut fresh: Vec<String> = Vec::new();
        let mut i: usize = 0;
        proof {
            assert forall|t: Seq<char>| #[trigger] old(self).refcount(t) >= 0 by {
                lemma_total_positive(count_weights(old(self).counts@), t);
            }
        }
        while i < streams.len()
            invariant
                self.wf(),
                self.logged_in(client),
                i <= streams@.len(),
                self.clients@ == old(self).clients@,
                self.subscribers@ == old(self).subscribers@,
                self.pending@ == old(self).pending@,
                self.next_id == old(self).next_id,
                self.disconnected == old(self).disconnected,
                self.last_attempt == old(self).last_attempt,
                forall|c: u64, t: Seq<char>|
                    self.follows(c, t) == (old(self).follows(c, t) || (c == client && exists|j: int|
                        0 <= j < i && #[trigger] streams@[j]@ == t)),
                forall|t: Seq<char>|
                    #[trigger] self.refcount(t) == old(self).refcount(t) + if self.follows(client, t) && !old(
                        self,
                    ).follows(client, t) {
                        1int
                    } else {
                        0int
                    },
                fresh_ok(names(fresh@), *old(self), *self),
                names(fresh@).no_duplicates(),
                forall|t: Seq<char>| #[trigger] old(self).refcount(t) >= 0,
            decreases streams@.len() - i,
        {
            let x = &streams[i];
            let ghost mid = *self;
            let ghost mid_fresh = fresh@;
            if !self.is_subscribed(client, x) {
                if self.follow(client, x) {
                    fresh.push(x.clone());
                    assert(names(fresh@) =~= names(mid_fresh).push(x@));
                    proof {
                        assert(!names(mid_fresh).contains(x@)) by {
                            if names(mid_fresh).contains(x@) {
                                assert(mid.refcount(x@) > 0);
                            }
                        }
                        assert forall|a: int, b: int| 0 <= a < names(fresh@).len() && 0 <= b < names(fresh@).len() && a != b
                            implies names(fresh@)[a] != names(fresh@)[b] by {
                            if a < names(mid_fresh).len() && b < names(mid_fresh).len() {
                            } else if a < names(mid_fresh).len() {
                                assert(names(mid_fresh)[a] == names(fresh@)[a]);
                            } else {
                                assert(names(mid_fresh)[b] == names(fresh@)[b]);
                            }
                        }
                    }
                }
            }
            proof {
                lemma_total_positive(count_weights(mid.counts@), x@);
                lemma_fresh_step(*old(self), mid, *self, names(mid_fresh), names(fresh@), x@);
                assert forall|c: u64, t: Seq<char>|
                    self.follows(c, t) == (old(self).follows(c, t) || (c == client && exists|j: int|
                        0 <= j < i + 1 && #[trigger] streams@[j]@ == t)) by {
                    if exists|j: int| 0 <= j < i + 1 && #[trigger] streams@[j]@ == t {
                        let j = choose|j: int| 0 <= j < i + 1 && #[trigger] streams@[j]@ == t;
                        if j < i {
                            assert(exists|j: int| 0 <= j < i && #[trigger] streams@[j]@ == t);
                        }
                    }
                    if exists|j: int| 0 <= j < i && #[trigger] streams@[j]@ == t {
                        let j = choose|j: int| 0 <= j < i && #[trigger] streams@[j]@ == t;
                        assert(0 <= j < i + 1 && streams@[j]@ == t);
                    }
                    if c == client && t == streams@[i as int]@ {
                        assert(0 <= i < i + 1 && streams@[i as int]@ == t);
                    }
                }
            }
            i = i + 1;
        }
        proof {
            assert forall|c: u64, t: Seq<char>|
                self.follows(c, t) == (old(self).follows(c, t) || (c == client && names(streams@).contains(t))) by {
                if names(streams@).contains(t) {
                    let j = choose|j: int| 0 <= j < names(streams@).len() && names(streams@)[j] == t;
                    assert(streams@[j]@ == t);
                }
                if exists|j: int| 0 <= j < streams@.len() && #[trigger] streams@[j]@ == t {
                    let j = choose|j: int| 0 <= j < streams@.len() && #[trigger] streams@[j]@ == t;
                    assert(names(streams@)[j] == t);
                }
            }
        }
        if fresh.len() == 0 {
            proof {
                assert forall|t: Seq<char>| !(old(self).refcount(t) == 0 && #[trigger] self.refcount(t) > 0) by {
                    if old(self).refcount(t) == 0 && self.refcount(t) > 0 {
                        assert(names(fresh@).contains(t));
                    }
                }
            }
            return SubscribeAction::Done;
        }
        proof {
            if forall|t: Seq<char>| #[trigger] names(streams@).contains(t) ==> old(self).follows(client, t) {
                let t = names(fresh@)[0];
                assert(names(fresh@).contains(t));
                assert(self.refcount(t) == old(self).refcount(t));
            }
        }
        let ghost after_loop = *self;
        let id = self.next_id;
        let _ = take_route(&mut self.pending, id);
        add_route(&mut self.pending, id, client, request_id);
        self.next_id = if id == i64::MAX { 1 } else { id + 1 };
        let up = upstream_names(&fresh);
        proof {
            assert forall|t: Seq<char>| #[trigger] self.refcount(t) == after_loop.refcount(t) by {}
            assert forall|t: Seq<char>| #[trigger] self.refcount(t) == self.followers(t) by {
                assert(after_loop.refcount(t) == after_loop.followers(t));
            }
            lemma_same_follows(self, &after_loop);
        }
        SubscribeAction::Upstream { id, keys: fresh, streams: up }
    }
}

/// Whether `m` records client `c` following stream `t`.
pub open spec fn has_pair(m: Seq<Membership>, c: u64, t: Seq<char>) -> bool {
    exists|k: int| 0 <= k < m.len() && m[k].client == c && #[trigger] m[k].stream@ == t
}

pub open spec fn pairs_unique(m: Seq<Membership>) -> bool {
    forall|i: int, j: int|
        0 <= i < j < m.len() ==> !(m[i].client == m[j].client && #[trigger] m[i].stream@ == #[trigger] m[j].stream@)
}

proof fn lemma_has_pair_push_at(m: Seq<Membership>, e: Membership, c: u64, t: Seq<char>)
    ensures
        has_pair(m.push(e), c, t) == (has_pair(m, c, t) || (c == e.client && t == e.stream@)),
{
    let m1 = m.push(e);
    if has_pair(m, c, t) {
        let k = choose|k: int| 0 <= k < m.len() && m[k].client == c && #[trigger] m[k].stream@ == t;
        assert(m1[k] == m[k]);
        assert(m1[k].client == c && m1[k].stream@ == t);
    }
    if c == e.client && t == e.stream@ {
        assert(m1[m.len() as int] == e);
        assert(m1[m.len() as int].client == c && m1[m.len() as int].stream@ == t);
    }
    if has_pair(m1, c, t) {
        let k = choose|k: int| 0 <= k < m1.len() && m1[k].client == c && #[trigger] m1[k].stream@ == t;
        if k < m.len() {
            assert(m[k] == m1[k]);
            assert(m[k].client == c && m[k].stream@ == t);
        }
    }
}

pub proof fn lemma_has_pair_push(m: Seq<Membership>, e: Membership)
    ensures
        forall|c: u64, t: Seq<char>|
            #[trigger] has_pair(m.push(e), c, t) == (has_pair(m, c, t) || (c == e.client && t == e.stream@)),
{
    assert forall|c: u64, t: Seq<char>|
        #[trigger] has_pair(m.push(e), c, t) == (has_pair(m, c, t) || (c == e.client && t == e.stream@)) by {
        lemma_has_pair_push_at(m, e, c, t);
    }
}

/// The clients recorded in `m` as following `t`.
pub open spec fn client_set(m: Seq<Membership>, t: Seq<char>) -> Set<u64> {
    Set::new(|c: u64| has_pair(m, c, t))
}

proof fn lemma_client_set_count(m: Seq<Membership>, t: Seq<char>)
    requires
        pairs_unique(m),
    ensures
        client_set(m, t).finite(),
        client_set(m, t).len() == total(membership_weights(m), t),
    decreases m.len(),
{
    if m.len() == 0 {
        assert(client_set(m, t) =~= Set::<u64>::empty());
        assert(membership_weights(m) =~= Seq::empty());
    } else {
        let p = m.drop_last();
        let e = m.last();
        assert(m =~= p.push(e));
        assert forall|a: int, b: int| 0 <= a < b < p.len() implies !(p[a].client == p[b].client
            && #[trigger] p[a].stream@ == #[trigger] p[b].stream@) by {
            assert(p[a] == m[a] && p[b] == m[b]);
        }
        lemma_client_set_count(p, t);
        lemma_has_pair_push(p, e);
        assert(membership_weights(m) =~= membership_weights(p).push((e.stream@, 1int)));
        lemma_total_push(membership_weights(p), (e.stream@, 1int), t);
        if e.stream@ == t {
            assert(client_set(m, t) =~= client_set(p, t).insert(e.client));
            if client_set(p, t).contains(e.client) {
                let k = choose|k: int| 0 <= k < p.len() && p[k].client == e.client && #[trigger] p[k].stream@ == t;
                assert(m[k] == p[k]);
                assert(m[m.len() - 1] == e);
            }
        } else {
            assert(client_set(m, t) =~= client_set(p, t));
        }
    }
}

/// The reference count of every stream is the number of distinct clients
/// that follow it, and it is zero exactly when the stream is not
/// subscribed upstream.
pub proof fn lemma_refcount_counts_clients(m: &Market, t: Seq<char>)
    requires
        m.wf(),
    ensures
        m.follower_set(t).finite(),
        m.refcount(t) == m.follower_set(t).len(),
        m.refcount(t) == 0 <==> !m.upstream_set().contains(t),
        forall|c: u64| m.follows(c, t) ==> m.refcount(t) > 0,
{
    lemma_client_set_count(m.memberships@, t);
    assert(m.follower_set(t) =~= client_set(m.memberships@, t));
    assert(m.refcount(t) == m.followers(t));
    lemma_total_positive(count_weights(m.counts@), t);
    if m.upstream_set().contains(t) {
        let k = choose|k: int| 0 <= k < m.counts@.len() && #[trigger] m.counts@[k].stream@ == t;
        assert(count_weights(m.counts@)[k].0 == t);
    }
    if m.refcount(t) != 0 {
        let k = choose|k: int| 0 <= k < count_weights(m.counts@).len() && count_weights(m.counts@)[k].0 == t;
        assert(m.counts@[k].stream@ == t);
    }
    assert forall|c: u64| m.follows(c, t) implies m.refcount(t) > 0 by {
        assert(m.follower_set(t).contains(c));
        vstd::set_lib::lemma_set_empty_equivalency_len(m.follower_set(t));
        assert(m.follower_set(t) != Set::<u64>::empty()) by {
            assert(!Set::<u64>::empty().contains(c));
        }
    }
}

/// `f` lists exactly the streams whose count went from zero (in `a`) to
/// positive (in `b`).
pub open spec fn fresh_ok(f: Seq<Seq<char>>, a: Market, b: Market) -> bool {
    &&& forall|t: Seq<char>| #[trigger] f.contains(t) ==> a.refcount(t) == 0 && b.refcount(t) > 0
    &&& forall|t: Seq<char>| a.refcount(t) == 0 && #[trigger] b.refcount(t) > 0 ==> f.contains(t)
}

proof fn lemma_fresh_at(start: Market, mid: Market, cur: Market, f0: Seq<Seq<char>>, f1: Seq<Seq<char>>, x: Seq<char>, t: Seq<char>)
    requires
        fresh_ok(f0, start, mid),
        forall|t: Seq<char>| #[trigger] start.refcount(t) >= 0,
        forall|t: Seq<char>| #[trigger] mid.refcount(t) >= start.refcount(t),
        mid.refcount(x) >= 0,
        f1 == f0 || f1 == f0.push(x),
        f1 == f0.push(x) ==> mid.refcount(x) == 0 && cur.refcount(x) == 1,
        f1 == f0 ==> (forall|t: Seq<char>| #[trigger] cur.refcount(t) == mid.refcount(t) || (t == x && mid.refcount(x) > 0 && cur.refcount(x) > 0)),
        forall|t: Seq<char>| t != x ==> #[trigger] cur.refcount(t) == mid.refcount(t),
    ensures
        f1.contains(t) <==> (start.refcount(t) == 0 && cur.refcount(t) > 0),
{
    assert(start.refcount(t) >= 0);
    assert(f0.contains(t) <==> (start.refcount(t) == 0 && mid.refcount(t) > 0));
    assert(mid.refcount(t) >= start.refcount(t));
    if f1 != f0 {
        if t != x {
            assert(cur.refcount(t) == mid.refcount(t));
            if f1.contains(t) {
                let j = choose|j: int| 0 <= j < f1.len() && f1[j] == t;
                assert(f0[j] == t);
            }
            if f0.contains(t) {
                let j = choose|j: int| 0 <= j < f0.len() && f0[j] == t;
                assert(f1[j] == t);
            }
        } else {
            assert(f1[f1.len() - 1] == t);
        }
    } else {
        assert(cur.refcount(t) == mid.refcount(t) || (t == x && mid.refcount(x) > 0 && cur.refcount(x) > 0));
    }
}

proof fn lemma_fresh_step(start: Market, mid: Market, cur: Market, f0: Seq<Seq<char>>, f1: Seq<Seq<char>>, x: Seq<char>)
    requires
        fresh_ok(f0, start, mid),
        forall|t: Seq<char>| #[trigger] start.refcount(t) >= 0,
        forall|t: Seq<char>| #[trigger] mid.refcount(t) >= start.refcount(t),
        mid.refcount(x) >= 0,
        f1 == f0 || f1 == f0.push(x),
        f1 == f0.push(x) ==> mid.refcount(x) == 0 && cur.refcount(x) == 1,
        f1 == f0 ==> (forall|t: Seq<char>| #[trigger] cur.refcount(t) == mid.refcount(t) || (t == x && mid.refcount(x) > 0 && cur.refcount(x) > 0)),
        forall|t: Seq<char>| t != x ==> #[trigger] cur.refcount(t) == mid.refcount(t),
    ensures
        fresh_ok(f1, start, cur),
{
    assert forall|t: Seq<char>| #[trigger] f1.contains(t) implies start.refcount(t) == 0 && cur.refcount(t) > 0 by {
        lemma_fresh_at(start, mid, cur, f0, f1, x, t);
    }
    assert forall|t: Seq<char>| start.refcount(t) == 0 && #[trigger] cur.refcount(t) > 0 implies f1.contains(t) by {
        lemma_fresh_at(start, mid, cur, f0, f1, x, t);
    }
}

proof fn lemma_same_follows(a: &Market, b: &Market)
    requires
        a.memberships@ == b.memberships@,
    ensures
        forall|c: u64, t: Seq<char>| a.follows(c, t) == b.follows(c, t),
{
    assert forall|c: u64, t: Seq<char>| a.follows(c, t) == b.follows(c, t) by {
        if a.follows(c, t) {
            let k = choose|k: int|
                0 <= k < a.memberships@.len() && a.memberships@[k].client == c && #[trigger] a.memberships@[k].stream@ == t;
            assert(b.memberships@[k].stream@ == t);
        }
        if b.follows(c, t) {
            let k = choose|k: int|
                0 <= k < b.memberships@.len() && b.memberships@[k].client == c && #[trigger] b.memberships@[k].stream@ == t;
            assert(a.memberships@[k].stream@ == t);
        }
    }
}

impl Market {
    /// Drops every stream `client` follows: each loses one count, and the
    /// streams left with none are returned (by their client names).
    fn release(&mut self, client: u64) -> (gone: Vec<String>)
        requires
            old(self).wf(),
        ensures
            final(self).wf(),
            final(self).clients@ == old(self).clients@,
            final(self).subscribers@ == old(self).subscribers@,
            final(self).pending@ == old(self).pending@,
            final(self).next_id == old(self).next_id,
            final(self).disconnected == old(self).disconnected,
            final(self).last_attempt == old(self).last_attempt,
            forall|c: u64, t: Seq<char>| final(self).follows(c, t) == (old(self).follows(c, t) && c != client),
            forall|t: Seq<char>|
                #[trigger] final(self).refcount(t) == old(self).refcount(t) - if old(self).follows(client, t) {
                    1int
                } else {
                    0int
                },
            forall|t: Seq<char>| #[trigger] names(gone@).contains(t) ==> old(self).refcount(t) > 0 && final(self).refcount(t) == 0,
            forall|t: Seq<char>| old(self).refcount(t) > 0 && #[trigger] final(self).refcount(t) == 0 ==> names(gone@).contains(t),
            names(gone@).no_duplicates(),
    {
        let ghost om = self.memberships@;
        let ghost n = om.len();
        let mut kept: Vec<Membership> = Vec::new();
        let mut gone: Vec<String> = Vec::new();
        let mut i: usize = 0;
        proof {
            assert(om.subrange(0, n as int) =~= om);
            assert(membership_weights(kept@) =~= Seq::empty());
            assert forall|t: Seq<char>| #[trigger] old(self).refcount(t) >= 0 by {
                lemma_total_positive(count_weights(old(self).counts@), t);
            }
            assert forall|t: Seq<char>|
                #[trigger] total(count_weights(self.counts@), t) == total(membership_weights(kept@), t) + total(
                    membership_weights(om.subrange(0, n as int)),
                    t,
                ) by {
                assert(old(self).refcount(t) == old(self).followers(t));
            }
            assert(om.subrange(0, 0) =~= Seq::<Membership>::empty());
            assert(membership_weights(om.subrange(0, 0)) =~= Seq::empty());
        }
        while i < self.memberships.len()
            invariant
                i <= n == om.len() == self.memberships@.len(),
                self.memberships@ == om,
                self.clients@ == old(self).clients@,
                self.subscribers@ == old(self).subscribers@,
                self.pending@ == old(self).pending@,
                self.next_id == old(self).next_id,
                self.disconnected == old(self).disconnected,
                self.last_attempt == old(self).last_attempt,
                old(self).wf(),
                om == old(self).memberships@,
                forall|a: int, b: int|
                    0 <= a < b < self.counts@.len() ==> #[trigger] self.counts@[a].stream@ != #[trigger] self.counts@[b].stream@,
                forall|a: int| 0 <= a < self.counts@.len() ==> #[trigger] self.counts@[a].count > 0,
                forall|t: Seq<char>|
                    #[trigger] total(count_weights(self.counts@), t) == total(membership_weights(kept@), t) + total(
                        membership_weights(om.subrange(i as int, n as int)),
                        t,
                    ),
                forall|t: Seq<char>|
                    #[trigger] total(membership_weights(kept@), t) == total(membership_weights(om.subrange(0, i as int)), t)
                        - if has_pair(om.subrange(0, i as int), client, t) { 1int } else { 0int },
                forall|k: int| 0 <= k < kept@.len() ==> #[trigger] kept@[k].client != client,
                forall|k: int| 0 <= k < kept@.len() ==> self.subscribers@.contains(#[trigger] kept@[k].client),
                pairs_unique(kept@),
                forall|c: u64, t: Seq<char>|
                    #[trigger] has_pair(kept@, c, t) == (c != client && has_pair(om.subrange(0, i as int), c, t)),
                forall|t: Seq<char>| #[trigger] old(self).refcount(t) >= 0,
                forall|t: Seq<char>| #[trigger] names(gone@).contains(t) ==> old(self).refcount(t) > 0 && total(count_weights(self.counts@), t) == 0,
                forall|t: Seq<char>|
                    old(self).refcount(t) > 0 && #[trigger] total(count_weights(self.counts@), t) == 0 ==> names(gone@).contains(t),
                forall|t: Seq<char>| #[trigger] total(count_weights(self.counts@), t) <= old(self).refcount(t),
            names(gone@).no_duplicates(),
                decreases n - i,
        {
            let ghost counts0 = self.counts@;
            let ghost kept0 = kept@;
            let ghost gone0 = gone@;
            let e = &self.memberships[i];
            let ghost es = e.stream@;
            proof {
                let r0 = om.subrange(i as int, n as int);
                let r1 = om.subrange(i + 1, n as int);
                assert(membership_weights(r0) =~= seq![(es, 1int)] + membership_weights(r1));
                assert(seq![(es, 1int)] =~= Seq::<(Seq<char>, int)>::empty().push((es, 1int)));
                assert forall|t: Seq<char>| #[trigger] total(membership_weights(r0), t) == share((es, 1int), t) + total(membership_weights(r1), t) by {
                    lemma_total_concat(seq![(es, 1int)], membership_weights(r1), t);
                    lemma_total_push(Seq::<(Seq<char>, int)>::empty(), (es, 1int), t);
                }
                let p0 = om.subrange(0, i as int);
                let p1 = om.subrange(0, i + 1);
                assert(p1 =~= p0.push(om[i as int]));
                assert(membership_weights(p1) =~= membership_weights(p0).push((es, 1int)));
                assert forall|t: Seq<char>| #[trigger] total(membership_weights(p1), t) == total(membership_weights(p0), t) + share((es, 1int), t) by {
                    lemma_total_push(membership_weights(p0), (es, 1int), t);
                }
                lemma_has_pair_push(p0, om[i as int]);
                // the pair at i does not occur earlier
                if has_pair(p0, om[i as int].client, es) {
                    let k = choose|k: int| 0 <= k < p0.len() && p0[k].client == om[i as int].client && #[trigger] p0[k].stream@ == es;
                    assert(om[k] == p0[k]);
                    assert(!(om[k].client == om[i as int].client && om[k].stream@ == om[i as int].stream@));
                }
                lemma_total_unit_bound(membership_weights(kept0), es);
            }
            if e.client == client {
                proof {
                    lemma_total_positive(count_weights(self.counts@), es);
                }
                match self.find_count(&e.stream) {
                    Some(k) => {
                        let ghost before = self.counts@;
                        let c = self.counts[k].count;
                        proof {
                            // the entry at k is the only one under es
                            let q = count_weights(before);
                            let a = q.subrange(0, k as int);
                            let b = q.subrange(k + 1, q.len() as int);
                            assert(q =~= a.push(q[k as int]) + b);
                            lemma_total_concat(a.push(q[k as int]), b, es);
                            lemma_total_push(a, q[k as int], es);
                            assert forall|j: int| 0 <= j < a.len() implies a[j].0 != es by {
                                assert(a[j] == q[j]);
                                assert(before[j].stream@ != before[k as int].stream@);
                            }
                            assert forall|j: int| 0 <= j < b.len() implies b[j].0 != es by {
                                assert(b[j] == q[k + 1 + j]);
                                assert(before[k as int].stream@ != before[k + 1 + j].stream@);
                            }
                            lemma_total_absent(a, es);
                            lemma_total_absent(b, es);
                        }
                        if c == 1 {
                            let _ = self.counts.remove(k);
                            gone.push(e.stream.clone());
                            proof {
                                assert(count_weights(self.counts@) =~= count_weights(before).remove(k as int));
                                assert forall|t: Seq<char>|
                                    #[trigger] total(count_weights(self.counts@), t) == total(count_weights(before), t) - share((es, 1int), t) by {
                                    lemma_total_remove(count_weights(before), k as int, t);
                                }
                                assert forall|a: int, b: int|
                                    0 <= a < b < self.counts@.len() implies #[trigger] self.counts@[a].stream@ != #[trigger] self.counts@[b].stream@ by {
                                    let a0 = if a < k { a } else { a + 1 };
                                    let b0 = if b < k { b } else { b + 1 };
                                    assert(self.counts@[a] == before[a0]);
                                    assert(self.counts@[b] == before[b0]);
                                }
                                assert forall|a: int| 0 <= a < self.counts@.len() implies #[trigger] self.counts@[a].count > 0 by {
                                    let a0 = if a < k { a } else { a + 1 };
                                    assert(self.counts@[a] == before[a0]);
                                }
                                assert(names(gone@) =~= names(gone0).push(es));
                                assert(!names(gone0).contains(es)) by {
                                    if names(gone0).contains(es) {
                                        assert(total(count_weights(before), es) == 0);
                                    }
                                }
                                assert forall|a: int, b: int| 0 <= a < names(gone@).len() && 0 <= b < names(gone@).len() && a != b
                                    implies names(gone@)[a] != names(gone@)[b] by {
                                    if a < names(gone0).len() && b < names(gone0).len() {
                                    } else if a < names(gone0).len() {
                                        assert(names(gone0)[a] == names(gone@)[a]);
                                    } else {
                                        assert(names(gone0)[b] == names(gone@)[b]);
                                    }
                                }
                                assert forall|t: Seq<char>| #[trigger] names(gone@).contains(t) implies old(self).refcount(t) > 0
                                    && total(count_weights(self.counts@), t) == 0 by {
                                    if t != es {
                                        let j = choose|j: int| 0 <= j < names(gone@).len() && names(gone@)[j] == t;
                                        assert(names(gone0)[j] == t);
                                        assert(names(gone0).contains(t));
                                        assert(total(count_weights(before), t) == 0);
                                    } else {
                                        assert(total(count_weights(before), es) == 1);
                                    }
                                }
                                assert forall|t: Seq<char>| old(self).refcount(t) > 0 && #[trigger] total(count_weights(self.counts@), t) == 0
                                    implies names(gone@).contains(t) by {
                                    if t != es {
                                        assert(total(count_weights(before), t) == 0);
                                        assert(names(gone0).contains(t));
                                        let j = choose|j: int| 0 <= j < names(gone0).len() && names(gone0)[j] == t;
                                        assert(names(gone@)[j] == t);
                                    } else {
                                        assert(names(gone@)[gone0.len() as int] == es);
                                    }
                                }
                            }
                        } else {
                            self.counts.set(k, StreamCount { stream: e.stream.clone(), count: c - 1 });
                            proof {
                                assert(count_weights(self.counts@) =~= count_weights(before).update(k as int, (es, (c - 1) as int)));
                                assert forall|t: Seq<char>|
                                    #[trigger] total(count_weights(self.counts@), t) == total(count_weights(before), t) - share((es, 1int), t) by {
                                    lemma_total_update(count_weights(before), k as int, (es, (c - 1) as int), t);
                                }
                                assert forall|a: int, b: int|
                                    0 <= a < b < self.counts@.len() implies #[trigger] self.counts@[a].stream@ != #[trigger] self.counts@[b].stream@ by {
                                    assert(before[a].stream@ != before[b].stream@);
                                }
                                assert forall|t: Seq<char>| #[trigger] names(gone@).contains(t) implies old(self).refcount(t) > 0
                                    && total(count_weights(self.counts@), t) == 0 by {
                                    assert(names(gone0).contains(t));
                                    assert(total(count_weights(before), t) == 0);
                                    if t == es {
                                        assert(total(count_weights(before), es) == c);
                                    }
                                }
                                assert forall|t: Seq<char>| old(self).refcount(t) > 0 && #[trigger] total(count_weights(self.counts@), t) == 0
                                    implies names(gone@).contains(t) by {
                                    if t != es {
                                        assert(total(count_weights(before), t) == 0);
                                    } else {
                                        assert(total(count_weights(before), es) == c);
                                    }
                                }
                            }
                        }
                    },
                    None => {
                        proof {
                            lemma_total_absent(count_weights(self.counts@), es);
                            lemma_total_unit_bound(membership_weights(om.subrange(i + 1, n as int)), es);
                            assert(false);
                        }
                    },
                }
            } else {
                kept.push(Membership { client: e.client, stream: e.stream.clone() });
                proof {
                    assert(membership_weights(kept@) =~= membership_weights(kept0).push((es, 1int)));
                    assert forall|t: Seq<char>|
                        #[trigger] total(membership_weights(kept@), t) == total(membership_weights(kept0), t) + share((es, 1int), t) by {
                        lemma_total_push(membership_weights(kept0), (es, 1int), t);
                    }
                    assert(self.subscribers@.contains(om[i as int].client));
                    lemma_has_pair_push(kept0, kept@[kept0.len() as int]);
                    assert(kept@ =~= kept0.push(kept@[kept0.len() as int]));
                    assert forall|a: int, b: int|
                        0 <= a < b < kept@.len() implies !(kept@[a].client == kept@[b].client && #[trigger] kept@[a].stream@
                            == #[trigger] kept@[b].stream@) by {
                        assert(kept@[a] == kept0[a] || a == kept0.len());
                        if b == kept0.len() {
                            if kept@[a].client == om[i as int].client && kept@[a].stream@ == es {
                                assert(has_pair(kept0, om[i as int].client, es));
                            }
                        } else {
                            assert(kept@[b] == kept0[b]);
                        }
                    }
                }
            }
            i = i + 1;
        }
        self.memberships = kept;
        proof {
            assert(om.subrange(i as int, n as int) =~= Seq::<Membership>::empty());
            assert(membership_weights(om.subrange(i as int, n as int)) =~= Seq::empty());
            assert(om.subrange(0, i as int) =~= om);
            assert forall|t: Seq<char>| #[trigger] self.refcount(t) == self.followers(t) by {}
            assert forall|t: Seq<char>|
                #[trigger] self.refcount(t) == old(self).refcount(t) - if old(self).follows(client, t) { 1int } else { 0int } by {
                assert(old(self).refcount(t) == old(self).followers(t));
            }
        }
        gone
    }
}

impl Market {
    /// A client went away (closed, failed, or was dropped). It stops
    /// following every stream; the streams left with no follower are
    /// unsubscribed upstream in one request. Closing a client that is not
    /// connected changes nothing.
    pub fn handle_close(&mut self, client: u64) -> (r: Option<UpstreamRequest>)
        requires
            old(self).wf(),
        ensures
            final(self).wf(),
            !old(self).connected(client) ==> r is None && *final(self) == *old(self),
            forall|c: u64| final(self).connected(c) == (old(self).connected(c) && c != client),
            forall|c: u64| final(self).logged_in(c) == (old(self).logged_in(c) && c != client),
            forall|c: u64, t: Seq<char>| final(self).follows(c, t) == (old(self).follows(c, t) && c != client),
            forall|t: Seq<char>|
                #[trigger] final(self).refcount(t) == old(self).refcount(t) - if old(self).follows(client, t) {
                    1int
                } else {
                    0int
                },
            forall|id: i64| final(self).route(id) == old(self).route(id),
            final(self).is_disconnected() == old(self).is_disconnected(),
            final(self).last_attempt_spec() == old(self).last_attempt_spec(),
            r is None ==> final(self).next_id_spec() == old(self).next_id_spec(),
            r is None ==> forall|t: Seq<char>| !(old(self).refcount(t) > 0 && #[trigger] final(self).refcount(t) == 0),
            r matches Some(u) ==> {
                &&& u.id == old(self).next_id_spec()
                &&& u.keys@.len() > 0
                &&& names(u.keys@).no_duplicates()
                &&& forall|t: Seq<char>| #[trigger] names(u.keys@).contains(t) ==> old(self).refcount(t) > 0 && final(self).refcount(t) == 0
                &&& forall|t: Seq<char>| old(self).refcount(t) > 0 && #[trigger] final(self).refcount(t) == 0 ==> names(u.keys@).contains(t)
                &&& u.streams@.len() == u.keys@.len()
                &&& forall|j: int| 0 <= j < u.keys@.len() ==> #[trigger] u.streams@[j]@ == upstream_of(u.keys@[j]@)
                &&& final(self).next_id_spec() == following_id(u.id)
            },
    {
        if !contains_id(&self.clients, client) {
            proof {
                if self.logged_in(client) {
                    let k = choose|k: int| 0 <= k < self.subscribers@.len() && self.subscribers@[k] == client;
                    assert(self.clients@.contains(self.subscribers@[k]));
                }
                assert forall|c: u64, t: Seq<char>| self.follows(c, t) == (old(self).follows(c, t) && c != client) by {
                    if self.follows(c, t) && c == client {
                        let k = choose|k: int| 0 <= k < self.memberships@.len() && self.memberships@[k].client == c && #[trigger] self.memberships@[k].stream@ == t;
                        assert(self.subscribers@.contains(self.memberships@[k].client));
                    }
                }
            }
            return None;
        }
        let gone = self.release(client);
        let ghost released = *self;
        remove_id(&mut self.subscribers, client);
        remove_id(&mut self.clients, client);
        proof {
            assert forall|i: int| 0 <= i < self.memberships@.len() implies self.subscribers@.contains(
                #[trigger] self.memberships@[i].client,
            ) by {
                let m = self.memberships@[i];
                assert(released.subscribers@.contains(m.client));
                if m.client == client {
                    assert(released.follows(client, m.stream@));
                }
            }
            assert forall|i: int| 0 <= i < self.subscribers@.len() implies self.clients@.contains(
                #[trigger] self.subscribers@[i],
            ) by {
                let c = self.subscribers@[i];
                assert(released.subscribers@.contains(c));
                let k = choose|k: int| 0 <= k < released.subscribers@.len() && released.subscribers@[k] == c;
                assert(released.clients@.contains(released.subscribers@[k]));
            }
            assert forall|t: Seq<char>| #[trigger] self.refcount(t) == self.followers(t) by {
                assert(released.refcount(t) == released.followers(t));
            }
            lemma_same_follows(self, &released);
        }
        proof {
            assert forall|t: Seq<char>| #[trigger] self.refcount(t) == released.refcount(t) by {}
        }
        if gone.len() == 0 {
            proof {
                assert forall|t: Seq<char>| !(old(self).refcount(t) > 0 && #[trigger] self.refcount(t) == 0) by {
                    if old(self).refcount(t) > 0 && self.refcount(t) == 0 {
                        assert(released.refcount(t) == 0);
                        assert(names(gone@).contains(t));
                    }
                }
            }
            return None;
        }
        let ghost unsent = *self;
        let id = self.next_id;
        self.next_id = if id == i64::MAX { 1 } else { id + 1 };
        let streams = upstream_names(&gone);
        proof {
            assert forall|t: Seq<char>| #[trigger] self.refcount(t) == unsent.refcount(t) by {}
            assert forall|t: Seq<char>| #[trigger] self.refcount(t) == self.followers(t) by {
                assert(unsent.refcount(t) == unsent.followers(t));
            }
            lemma_same_follows(self, &unsent);
        }
        Some(UpstreamRequest { id, keys: gone, streams })
    }

    /// An upstream answer (`result` or error) with id `id` arrived: where it
    /// goes (the client and the id the client used), at most once.
    pub fn on_reply(&mut self, id: i64) -> (r: Option<(u64, i64)>)
        requires
            old(self).wf(),
        ensures
            final(self).wf(),
            r == old(self).route(id),
            final(self).route(id) is None,
            forall|other: i64| other != id ==> final(self).route(other) == old(self).route(other),
            forall|c: u64| final(self).connected(c) == old(self).connected(c),
            forall|c: u64| final(self).logged_in(c) == old(self).logged_in(c),
            forall|c: u64, t: Seq<char>| final(self).follows(c, t) == old(self).follows(c, t),
            forall|t: Seq<char>| #[trigger] final(self).refcount(t) == old(self).refcount(t),
            final(self).next_id_spec() == old(self).next_id_spec(),
            final(self).is_disconnected() == old(self).is_disconnected(),
            final(self).last_attempt_spec() == old(self).last_attempt_spec(),
    {
        let r = take_route(&mut self.pending, id);
        proof {
            assert forall|t: Seq<char>| #[trigger] self.refcount(t) == self.followers(t) by {
                assert(old(self).refcount(t) == old(self).followers(t));
            }
            lemma_same_follows(self, old(self));
        }
        r
    }

    /// The clients that follow `stream`, each once.
    pub fn recipients(&self, stream: &String) -> (r: Vec<u64>)
        requires
            self.wf(),
        ensures
            forall|c: u64| r@.contains(c) == self.follows(c, stream@),
            r@.no_duplicates(),
    {
        let mut out: Vec<u64> = Vec::new();
        let mut i: usize = 0;
        while i < self.memberships.len()
            invariant
                self.wf(),
                i <= self.memberships@.len(),
                out@.no_duplicates(),
                forall|c: u64|
                    out@.contains(c) == has_pair(self.memberships@.subrange(0, i as int), c, stream@),
            decreases self.memberships@.len() - i,
        {
            let ghost p0 = self.memberships@.subrange(0, i as int);
            let ghost out0 = out@;
            let m = &self.memberships[i];
            proof {
                assert(self.memberships@.subrange(0, i + 1) =~= p0.push(self.memberships@[i as int]));
                lemma_has_pair_push(p0, self.memberships@[i as int]);
            }
            if m.stream == *stream {
                proof {
                    if out0.contains(m.client) {
                        let k = choose|k: int| 0 <= k < p0.len() && p0[k].client == m.client && #[trigger] p0[k].stream@ == stream@;
                        assert(self.memberships@[k] == p0[k]);
                        assert(!(self.memberships@[k].client == self.memberships@[i as int].client
                            && self.memberships@[k].stream@ == self.memberships@[i as int].stream@));
                    }
                }
                out.push(m.client);
                proof {
                    assert forall|a: int, b: int| 0 <= a < b < out@.len() implies out@[a] != out@[b] by {
                        if b == out0.len() {
                            assert(out0.contains(out@[a]) ==> out@[a] != m.client);
                            assert(out0[a] == out@[a]);
                        } else {
                            assert(out0[a] != out0[b]);
                        }
                    }
                    assert forall|c: u64| #[trigger] out@.contains(c) implies out0.contains(c) || c == m.client by {
                        let k = choose|k: int| 0 <= k < out@.len() && out@[k] == c;
                        if k < out0.len() {
                            assert(out0[k] == c);
                        }
                    }
                    assert forall|c: u64| out0.contains(c) || c == m.client implies #[trigger] out@.contains(c) by {
                        if out0.contains(c) {
                            let k = choose|k: int| 0 <= k < out0.len() && out0[k] == c;
                            assert(out@[k] == c);
                        } else {
                            assert(out@[out0.len() as int] == c);
                        }
                    }
                }
            }
            i = i + 1;
        }
        proof {
            assert(self.memberships@.subrange(0, i as int) =~= self.memberships@);
        }
        out
    }

    /// Records that the upstream connection went down.
    pub fn mark_disconnected(&mut self)
        requires
            old(self).wf(),
        ensures
            final(self).wf(),
            final(self).is_disconnected(),
            final(self).same_tables_spec(old(self)),
            final(self).last_attempt_spec() == old(self).last_attempt_spec(),
    {
        self.disconnected = true;
        proof {
            assert forall|t: Seq<char>| #[trigger] self.refcount(t) == self.followers(t) by {
                assert(old(self).refcount(t) == old(self).followers(t));
            }
        }
    }

    /// Whether a reconnect attempt is due at `now_ms`: the link is down and
    /// the last attempt lies at least `MARKET_RETRY_MS` back. When it is,
    /// `now_ms` becomes the time of the last attempt.
    pub fn reconnect_due(&mut self, now_ms: u64) -> (r: bool)
        requires
            old(self).wf(),
        ensures
            final(self).wf(),
            r == (old(self).is_disconnected() && now_ms as int >= old(self).last_attempt_spec() + MARKET_RETRY_MS),
            final(self).same_tables_spec(old(self)),
            final(self).is_disconnected() == old(self).is_disconnected(),
            final(self).last_attempt_spec() == if r { now_ms } else { old(self).last_attempt_spec() },
    {
        if !self.disconnected || now_ms < self.last_attempt || now_ms - self.last_attempt < MARKET_RETRY_MS {
            return false;
        }
        self.last_attempt = now_ms;
        proof {
            assert forall|t: Seq<char>| #[trigger] self.refcount(t) == self.followers(t) by {
                assert(old(self).refcount(t) == old(self).followers(t));
            }
        }
        true
    }

    /// The upstream connection is back: the link counts as connected and,
    /// when any stream is followed, one request re-subscribes all of them.
    pub fn on_reconnected(&mut self) -> (r: Option<UpstreamRequest>)
        requires
            old(self).wf(),
        ensures
            final(self).wf(),
            !final(self).is_disconnected(),
            forall|c: u64| final(self).connected(c) == old(self).connected(c),
            forall|c: u64| final(self).logged_in(c) == old(self).logged_in(c),
            forall|c: u64, t: Seq<char>| final(self).follows(c, t) == old(self).follows(c, t),
            forall|t: Seq<char>| #[trigger] final(self).refcount(t) == old(self).refcount(t),
            forall|id: i64| final(self).route(id) == old(self).route(id),
            final(self).last_attempt_spec() == old(self).last_attempt_spec(),
            r is None ==> final(self).next_id_spec() == old(self).next_id_spec() && forall|t: Seq<char>|
                #[trigger] old(self).refcount(t) == 0,
            r matches Some(u) ==> {
                &&& u.id == old(self).next_id_spec()
                &&& names(u.keys@).no_duplicates()
                &&& forall|t: Seq<char>| #[trigger] names(u.keys@).contains(t) ==> old(self).refcount(t) > 0
                &&& forall|t: Seq<char>| #[trigger] old(self).refcount(t) > 0 ==> names(u.keys@).contains(t)
                &&& u.streams@.len() == u.keys@.len()
                &&& forall|j: int| 0 <= j < u.keys@.len() ==> #[trigger] u.streams@[j]@ == upstream_of(u.keys@[j]@)
                &&& final(self).next_id_spec() == following_id(u.id)
            },
    {
        self.disconnected = false;
        let mut keys: Vec<String> = Vec::new();
        let mut i: usize = 0;
        while i < self.counts.len()
            invariant
                i <= self.counts@.len(),
                keys@.len() == i,
                forall|j: int| 0 <= j < i ==> #[trigger] keys@[j]@ == self.counts@[j].stream@,
            decreases self.counts@.len() - i,
        {
            keys.push(self.counts[i].stream.clone());
            i = i + 1;
        }
        proof {
            assert forall|t: Seq<char>| #[trigger] self.refcount(t) == self.followers(t) by {
                assert(old(self).refcount(t) == old(self).followers(t));
            }
            lemma_same_follows(self, old(self));
            assert forall|t: Seq<char>| #[trigger] names(keys@).contains(t) implies old(self).refcount(t) > 0 by {
                lemma_total_positive(count_weights(self.counts@), t);
                {
                    let j = choose|j: int| 0 <= j < names(keys@).len() && names(keys@)[j] == t;
                    assert(count_weights(self.counts@)[j].0 == t);
                }
            }
            assert forall|t: Seq<char>| #[trigger] old(self).refcount(t) > 0 implies names(keys@).contains(t) by {
                lemma_total_positive(count_weights(self.counts@), t);
                {
                    let j = choose|j: int| 0 <= j < count_weights(self.counts@).len() && count_weights(self.counts@)[j].0 == t;
                    assert(names(keys@)[j] == t);
                }
            }
        }
        proof {
            assert forall|a: int, b: int| 0 <= a < names(keys@).len() && 0 <= b < names(keys@).len() && a != b
                implies names(keys@)[a] != names(keys@)[b] by {
                assert(names(keys@)[a] == old(self).counts@[a].stream@);
                assert(names(keys@)[b] == old(self).counts@[b].stream@);
                if a < b {
                    assert(old(self).counts@[a].stream@ != old(self).counts@[b].stream@);
                } else {
                    assert(old(self).counts@[b].stream@ != old(self).counts@[a].stream@);
                }
            }
        }
        if keys.len() == 0 {
            proof {
                assert forall|t: Seq<char>| #[trigger] old(self).refcount(t) == 0 by {
                    lemma_total_absent(count_weights(self.counts@), t);
                }
            }
            return None;
        }
        let ghost unsent = *self;
        let id = self.next_id;
        self.next_id = if id == i64::MAX { 1 } else { id + 1 };
        let streams = upstream_names(&keys);
        proof {
            assert forall|t: Seq<char>| #[trigger] self.refcount(t) == unsent.refcount(t) by {}
            assert forall|t: Seq<char>| #[trigger] self.refcount(t) == self.followers(t) by {
                assert(unsent.refcount(t) == unsent.followers(t));
            }
            lemma_same_follows(self, &unsent);
        }
        Some(UpstreamRequest { id, keys, streams })
    }
}

/// Removes `x` from `v`, whose entries are distinct.
fn remove_id(v: &mut Vec<u64>, x: u64)
    requires
        old(v)@.no_duplicates(),
    ensures
        final(v)@.no_duplicates(),
        forall|y: u64| final(v)@.contains(y) == (old(v)@.contains(y) && y != x),
{
    let mut i: usize = 0;
    while i < v.len()
        invariant
            i <= v@.len(),
            v@ == old(v)@,
            old(v)@.no_duplicates(),
            forall|k: int| 0 <= k < i ==> v@[k] != x,
        decreases v@.len() - i,
    {
        if v[i] == x {
            let ghost before = v@;
            let _ = v.remove(i);
            proof {
                assert forall|a: int, b: int| 0 <= a < b < v@.len() implies v@[a] != v@[b] by {
                    let a0 = if a < i { a } else { a + 1 };
                    let b0 = if b < i { b } else { b + 1 };
                    assert(v@[a] == before[a0]);
                    assert(v@[b] == before[b0]);
                }
                assert forall|y: u64| #[trigger] v@.contains(y) implies before.contains(y) && y != x by {
                    let k = choose|k: int| 0 <= k < v@.len() && v@[k] == y;
                    let k0 = if k < i { k } else { k + 1 };
                    assert(before[k0] == y);
                    assert(k0 != i);
                }
                assert forall|y: u64| before.contains(y) && y != x implies #[trigger] v@.contains(y) by {
                    let k = choose|k: int| 0 <= k < before.len() && before[k] == y;
                    assert(k != i);
                    let k1 = if k < i { k } else { k - 1 };
                    assert(v@[k1] == y);
                }
            }
            return;
        }
        i = i + 1;
    }
    assert forall|y: u64| v@.contains(y) == (old(v)@.contains(y) && y != x) by {
        if v@.contains(y) {
            let k = choose|k: int| 0 <= k < v@.len() && v@[k] == y;
        }
    }
}

/// Where the answer to upstream request `id` goes, by the table `p`.
pub open spec fn route_in(p: Seq<Pending>, id: i64) -> Option<(u64, i64)> {
    if exists|k: int| 0 <= k < p.len() && #[trigger] p[k].upstream_id == id {
        let k = choose|k: int| 0 <= k < p.len() && #[trigger] p[k].upstream_id == id;
        Some((p[k].client, p[k].request_id))
    } else {
        None
    }
}

pub open spec fn ids_unique(p: Seq<Pending>) -> bool {
    forall|i: int, j: int| 0 <= i < j < p.len() ==> #[trigger] p[i].upstream_id != #[trigger] p[j].upstream_id
}

pub proof fn lemma_route_at(p: Seq<Pending>, k: int)
    requires
        ids_unique(p),
        0 <= k < p.len(),
    ensures
        route_in(p, p[k].upstream_id) == Some((p[k].client, p[k].request_id)),
{
    let id = p[k].upstream_id;
    assert(p[k].upstream_id == id);
    let j = choose|j: int| 0 <= j < p.len() && #[trigger] p[j].upstream_id == id;
    if j < k {
        assert(p[j].upstream_id != p[k].upstream_id);
    } else if k < j {
        assert(p[k].upstream_id != p[j].upstream_id);
    }
}

/// Removes the entry for upstream request `id`, giving where it routed.
fn take_route(p: &mut Vec<Pending>, id: i64) -> (r: Option<(u64, i64)>)
    requires
        ids_unique(old(p)@),
    ensures
        ids_unique(final(p)@),
        r == route_in(old(p)@, id),
        route_in(final(p)@, id) is None,
        forall|other: i64| other != id ==> route_in(final(p)@, other) == route_in(old(p)@, other),
{
    let mut i: usize = 0;
    while i < p.len()
        invariant
            i <= p@.len(),
            p@ == old(p)@,
            ids_unique(p@),
            forall|k: int| 0 <= k < i ==> p@[k].upstream_id != id,
        decreases p@.len() - i,
    {
        if p[i].upstream_id == id {
            proof {
                lemma_route_at(p@, i as int);
            }
            let ghost before = p@;
            let e = p.remove(i);
            proof {
                let after = p@;
                assert forall|a: int, b: int| 0 <= a < b < after.len() implies #[trigger] after[a].upstream_id
                    != #[trigger] after[b].upstream_id by {
                    let a0 = if a < i { a } else { a + 1 };
                    let b0 = if b < i { b } else { b + 1 };
                    assert(after[a] == before[a0]);
                    assert(after[b] == before[b0]);
                }
                assert forall|k: int| 0 <= k < after.len() implies #[trigger] after[k].upstream_id != id by {
                    let k0 = if k < i { k } else { k + 1 };
                    assert(after[k] == before[k0]);
                }
                assert forall|other: i64| other != id implies route_in(after, other) == route_in(before, other) by {
                    if exists|j: int| 0 <= j < before.len() && #[trigger] before[j].upstream_id == other {
                        let j = choose|j: int| 0 <= j < before.len() && #[trigger] before[j].upstream_id == other;
                        let j1 = if j < i { j } else { j - 1 };
                        assert(after[j1] == before[j]);
                        lemma_route_at(before, j);
                        lemma_route_at(after, j1);
                    } else if exists|j: int| 0 <= j < after.len() && #[trigger] after[j].upstream_id == other {
                        let j = choose|j: int| 0 <= j < after.len() && #[trigger] after[j].upstream_id == other;
                        let j0 = if j < i { j } else { j + 1 };
                        assert(after[j] == before[j0]);
                    }
                }
            }
            return Some((e.client, e.request_id));
        }
        i = i + 1;
    }
    None
}

/// Records that the answer to upstream request `id` goes to `client`
/// under `request_id`.
fn add_route(p: &mut Vec<Pending>, id: i64, client: u64, request_id: i64)
    requires
        ids_unique(old(p)@),
        route_in(old(p)@, id) is None,
    ensures
        ids_unique(final(p)@),
        route_in(final(p)@, id) == Some((client, request_id)),
        forall|other: i64| other != id ==> route_in(final(p)@, other) == route_in(old(p)@, other),
{
    let ghost before = p@;
    p.push(Pending { upstream_id: id, client, request_id });
    proof {
        let after = p@;
        assert forall|k: int| 0 <= k < before.len() implies #[trigger] before[k].upstream_id != id by {
            if before[k].upstream_id == id {
                assert(exists|j: int| 0 <= j < before.len() && #[trigger] before[j].upstream_id == id);
            }
        }
        assert forall|a: int, b: int| 0 <= a < b < after.len() implies #[trigger] after[a].upstream_id
            != #[trigger] after[b].upstream_id by {
            assert(after[a] == before[a]);
            if b < before.len() {
                assert(after[b] == before[b]);
            }
        }
        lemma_route_at(after, before.len() as int);
        assert forall|other: i64| other != id implies route_in(after, other) == route_in(before, other) by {
            if exists|j: int| 0 <= j < before.len() && #[trigger] before[j].upstream_id == other {
                let j = choose|j: int| 0 <= j < before.len() && #[trigger] before[j].upstream_id == other;
                assert(after[j] == before[j]);
                lemma_route_at(before, j);
                lemma_route_at(after, j);
            } else if exists|j: int| 0 <= j < after.len() && #[trigger] after[j].upstream_id == other {
                let j = choose|j: int| 0 <= j < after.len() && #[trigger] after[j].upstream_id == other;
                assert(after[j] == before[j]);
            }
        }
    }
}

/// The id that follows `id`: ids run from 1 upwards and wrap back to 1.
pub open spec fn following_id(id: i64) -> i64 {
    if id == i64::MAX { 1 } else { (id + 1) as i64 }
}

/// Whether `v` holds `x`.
pub fn contains_id(v: &Vec<u64>, x: u64) -> (r: bool)
    ensures
        r == v@.contains(x),
{
    let mut i: usize = 0;
    while i < v.len()
        invariant
            i <= v@.len(),
            forall|k: int| 0 <= k < i ==> v@[k] != x,
        decreases v@.len() - i,
    {
        if v[i] == x {
            assert(v@[i as int] == x);
            return true;
        }
        i = i + 1;
    }
    false
}

/// The exchange's names of the streams `keys`, in order.
pub fn upstream_names(keys: &Vec<String>) -> (r: Vec<String>)
    ensures
        r@.len() == keys@.len(),
        forall|j: int| 0 <= j < keys@.len() ==> #[trigger] r@[j]@ == upstream_of(keys@[j]@),
{
    let mut out: Vec<String> = Vec::new();
    let mut i: usize = 0;
    while i < keys.len()
        invariant
            i <= keys@.len(),
            out@.len() == i,
            forall|j: int| 0 <= j < i ==> #[trigger] out@[j]@ == upstream_of(keys@[j]@),
        decreases keys@.len() - i,
    {
        out.push(upstream_name(keys[i].as_str()));
        i = i + 1;
    }
    out
}

} // verus!
