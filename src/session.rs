//! Trading sessions and their positions. A session is a 16-bit id chosen
//! by clients; at most one client holds it at a time, and its positions
//! outlive the client. Positions move only on fills.
use vstd::prelude::*;
use crate::binance::Fill;
use crate::chat::{Position, Side, State, DUPLICATE_LOGIN};
use crate::ids::session_of;
use crate::binance::parse_client_order_id;
use crate::fixed::unsigned_of;
use crate::text::same_text;

verus! {

/// The market a gateway trades, which decides how a fill moves a position.
#[derive(Clone, Copy, PartialEq, Eq, Structural, Debug)]
pub enum Venue {
    /// Commission is paid in the traded asset: it reduces the fill.
    Spot,
    /// Commission is paid in another asset: the fill counts whole.
    Perpetual,
}

/// How much a fill moves a position before its sign:
/// `trade_volume − commission` on spot, `trade_volume` on perpetuals.
pub open spec fn fill_delta(venue: Venue, trade_volume: int, commission: int) -> int {
    match venue {
        Venue::Spot => trade_volume - commission,
        Venue::Perpetual => trade_volume,
    }
}

/// A buy adds, a sell subtracts.
pub open spec fn signed(side: Side, d: int) -> int {
    match side {
        Side::BUY => d,
        Side::SELL => -d,
    }
}

/// Only fills move positions.
pub open spec fn moves_position(state: State) -> bool {
    state == State::FILLED || state == State::PARTIALLY_FILLED
}

/// One session's holding in one symbol.
#[derive(Debug)]
pub struct Entry {
    pub session_id: u16,
    pub symbol: String,
    pub net: i64,
}

/// The in-memory cache of the durable position table: which sessions have
/// a table, and the net of each (session, symbol). Writing it through to
/// storage is the caller's part.
pub struct PositionDB {
    tables: Vec<u16>,
    entries: Vec<Entry>,
}

/// Which entry, if any, holds session `sid`'s position in `sym`.
pub open spec fn entry_index(e: Seq<Entry>, sid: u16, sym: Seq<char>) -> Option<int> {
    if exists|k: int| 0 <= k < e.len() && e[k].session_id == sid && #[trigger] e[k].symbol@ == sym {
        Some(choose|k: int| 0 <= k < e.len() && e[k].session_id == sid && #[trigger] e[k].symbol@ == sym)
    } else {
        None
    }
}

impl PositionDB {
    /// The net of session `sid` in `sym`, where it has one.
    pub closed spec fn net(&self, sid: u16, sym: Seq<char>) -> Option<int> {
        match entry_index(self.entries@, sid, sym) {
            Some(k) => Some(self.entries@[k].net as int),
            None => None,
        }
    }

    /// Whether session `sid` has a table.
    pub closed spec fn has_table(&self, sid: u16) -> bool {
        self.tables@.contains(sid)
    }

    pub closed spec fn wf(&self) -> bool {
        &&& self.tables@.no_duplicates()
        &&& forall|i: int, j: int|
            0 <= i < j < self.entries@.len() ==> !(self.entries@[i].session_id == self.entries@[j].session_id
                && #[trigger] self.entries@[i].symbol@ == #[trigger] self.entries@[j].symbol@)
        &&& forall|i: int| 0 <= i < self.entries@.len() ==> self.tables@.contains(#[trigger] self.entries@[i].session_id)
    }

    pub fn new() -> (r: PositionDB)
        ensures
            r.wf(),
            forall|sid: u16| !r.has_table(sid),
            forall|sid: u16, sym: Seq<char>| r.net(sid, sym) is None,
    {
        PositionDB { tables: Vec::new(), entries: Vec::new() }
    }

    proof fn lemma_net_at(&self, k: int)
        requires
            self.wf(),
            0 <= k < self.entries@.len(),
        ensures
            self.net(self.entries@[k].session_id, self.entries@[k].symbol@) == Some(self.entries@[k].net as int),
    {
        let e = self.entries@;
        let sid = e[k].session_id;
        let sym = e[k].symbol@;
        assert(e[k].session_id == sid && e[k].symbol@ == sym);
        let j = choose|j: int| 0 <= j < e.len() && e[j].session_id == sid && #[trigger] e[j].symbol@ == sym;
        if j < k {
            assert(!(e[j].session_id == e[k].session_id && e[j].symbol@ == e[k].symbol@));
        } else if k < j {
            assert(!(e[k].session_id == e[j].session_id && e[k].symbol@ == e[j].symbol@));
        }
    }

    fn find(&self, sid: u16, sym: &str) -> (r: Option<usize>)
        requires
            self.wf(),
        ensures
            r matches Some(k) ==> k < self.entries@.len() && self.entries@[k as int].session_id == sid
                && self.entries@[k as int].symbol@ == sym@,
            r is None ==> self.net(sid, sym@) is None,
            r is None ==> forall|k: int|
                0 <= k < self.entries@.len() ==> !(self.entries@[k].session_id == sid && #[trigger] self.entries@[k].symbol@ == sym@),
    {
        let mut i: usize = 0;
        while i < self.entries.len()
            invariant
                i <= self.entries@.len(),
                forall|k: int|
                    0 <= k < i ==> !(self.entries@[k].session_id == sid && #[trigger] self.entries@[k].symbol@ == sym@),
            decreases self.entries@.len() - i,
        {
            if self.entries[i].session_id == sid && same_text(self.entries[i].symbol.as_str(), sym) {
                return Some(i);
            }
            i = i + 1;
        }
        None
    }

    /// Makes sure session `sid` has a table (idempotent).
    pub fn create_table(&mut self, sid: u16)
        requires
            old(self).wf(),
        ensures
            final(self).wf(),
            forall|s: u16| final(self).has_table(s) == (old(self).has_table(s) || s == sid),
            forall|s: u16, sym: Seq<char>| final(self).net(s, sym) == old(self).net(s, sym),
    {
        if !contains_u16(&self.tables, sid) {
            let ghost before = self.tables@;
            self.tables.push(sid);
            proof {
                assert forall|a: int, b: int| 0 <= a < b < self.tables@.len() implies self.tables@[a] != self.tables@[b] by {
                    if b == before.len() {
                        assert(self.tables@[a] == before[a]);
                    } else {
                        assert(before[a] != before[b]);
                    }
                }
                assert forall|i: int| 0 <= i < self.entries@.len() implies self.tables@.contains(
                    #[trigger] self.entries@[i].session_id,
                ) by {
                    let s = self.entries@[i].session_id;
                    let k = choose|k: int| 0 <= k < before.len() && before[k] == s;
                    assert(self.tables@[k] == s);
                }
                assert forall|s: u16| #[trigger] self.tables@.contains(s) implies before.contains(s) || s == sid by {
                    let k = choose|k: int| 0 <= k < self.tables@.len() && self.tables@[k] == s;
                    if k < before.len() {
                        assert(before[k] == s);
                    }
                }
                assert forall|s: u16| before.contains(s) || s == sid implies #[trigger] self.tables@.contains(s) by {
                    if before.contains(s) {
                        let k = choose|k: int| 0 <= k < before.len() && before[k] == s;
                        assert(self.tables@[k] == s);
                    } else {
                        assert(self.tables@[before.len() as int] == s);
                    }
                }
            }
        }
    }

    /// Writes `net` as session `sid`'s position in `symbol` (creating the
    /// table if needed).
    pub fn update(&mut self, sid: u16, symbol: &str, net: i64)
        requires
            old(self).wf(),
        ensures
            final(self).wf(),
            final(self).net(sid, symbol@) == Some(net as int),
            forall|s: u16, sym: Seq<char>| !(s == sid && sym == symbol@) ==> final(self).net(s, sym) == old(self).net(s, sym),
            forall|s: u16| final(self).has_table(s) == (old(self).has_table(s) || s == sid),
    {
        self.create_table(sid);
        let ghost before = self.entries@;
        let ghost mid = *self;
        match self.find(sid, symbol) {
            Some(k) => {
                let sym = self.entries[k].symbol.clone();
                self.entries.set(k, Entry { session_id: sid, symbol: sym, net });
                proof {
                    let e = self.entries@;
                    assert forall|a: int, b: int| 0 <= a < b < e.len() implies !(e[a].session_id == e[b].session_id
                        && #[trigger] e[a].symbol@ == #[trigger] e[b].symbol@) by {
                        assert(!(before[a].session_id == before[b].session_id && before[a].symbol@ == before[b].symbol@));
                    }
                    assert forall|i: int| 0 <= i < e.len() implies self.tables@.contains(#[trigger] e[i].session_id) by {
                        assert(mid.tables@.contains(before[i].session_id));
                    }
                    self.lemma_net_at(k as int);
                    assert forall|s: u16, sym: Seq<char>| !(s == sid && sym == symbol@) implies self.net(s, sym) == mid.net(s, sym) by {
                        if exists|j: int| 0 <= j < before.len() && before[j].session_id == s && #[trigger] before[j].symbol@ == sym {
                            let j = choose|j: int| 0 <= j < before.len() && before[j].session_id == s && #[trigger] before[j].symbol@ == sym;
                            assert(j != k);
                            assert(e[j] == before[j]);
                            mid.lemma_net_at(j);
                            self.lemma_net_at(j);
                        } else if exists|j: int| 0 <= j < e.len() && e[j].session_id == s && #[trigger] e[j].symbol@ == sym {
                            let j = choose|j: int| 0 <= j < e.len() && e[j].session_id == s && #[trigger] e[j].symbol@ == sym;
                            assert(j != k);
                            assert(e[j] == before[j]);
                        }
                    }
                }
            },
            None => {
                self.entries.push(Entry { session_id: sid, symbol: String::from_str(symbol), net });
                proof {
                    let e = self.entries@;
                    let last = before.len() as int;
                    assert forall|a: int, b: int| 0 <= a < b < e.len() implies !(e[a].session_id == e[b].session_id
                        && #[trigger] e[a].symbol@ == #[trigger] e[b].symbol@) by {
                        assert(e[a] == before[a]);
                        if b < last {
                            assert(e[b] == before[b]);
                            assert(!(before[a].session_id == before[b].session_id && before[a].symbol@ == before[b].symbol@));
                        }
                    }
                    assert forall|i: int| 0 <= i < e.len() implies self.tables@.contains(#[trigger] e[i].session_id) by {
                        if i < last {
                            assert(e[i] == before[i]);
                        } else {
                            assert(mid.has_table(sid));
                        }
                    }
                    self.lemma_net_at(last);
                    assert forall|s: u16, sym: Seq<char>| !(s == sid && sym == symbol@) implies self.net(s, sym) == mid.net(s, sym) by {
                        if exists|j: int| 0 <= j < before.len() && before[j].session_id == s && #[trigger] before[j].symbol@ == sym {
                            let j = choose|j: int| 0 <= j < before.len() && before[j].session_id == s && #[trigger] before[j].symbol@ == sym;
                            assert(e[j] == before[j]);
                            mid.lemma_net_at(j);
                            self.lemma_net_at(j);
                        } else if exists|j: int| 0 <= j < e.len() && e[j].session_id == s && #[trigger] e[j].symbol@ == sym {
                            let j = choose|j: int| 0 <= j < e.len() && e[j].session_id == s && #[trigger] e[j].symbol@ == sym;
                            assert(j != last);
                            assert(e[j] == before[j]);
                        }
                    }
                }
            },
        }
    }

    /// Loads session `sid`'s stored rows at startup: the session gets a
    /// table, and each row with a non-zero net becomes its position (a
    /// later row of the same symbol wins).
    pub fn load(&mut self, sid: u16, rows: &Vec<Position>)
        requires
            old(self).wf(),
        ensures
            final(self).wf(),
            forall|s: u16| final(self).has_table(s) == (old(self).has_table(s) || s == sid),
            forall|s: u16, sym: Seq<char>| s != sid ==> final(self).net(s, sym) == old(self).net(s, sym),
            forall|sym: Seq<char>|
                (forall|i: int| 0 <= i < rows@.len() ==> !(#[trigger] rows@[i].symbol@ == sym && rows@[i].net != 0))
                    ==> final(self).net(sid, sym) == old(self).net(sid, sym),
            forall|i: int|
                0 <= i < rows@.len() && #[trigger] rows@[i].net != 0 && (forall|j: int|
                    i < j < rows@.len() ==> !(#[trigger] rows@[j].symbol@ == rows@[i].symbol@ && rows@[j].net != 0))
                    ==> final(self).net(sid, rows@[i].symbol@) == Some(rows@[i].net as int),
    {
        self.create_table(sid);
        let mut k: usize = 0;
        while k < rows.len()
            invariant
                self.wf(),
                k <= rows@.len(),
                forall|s: u16| self.has_table(s) == (old(self).has_table(s) || s == sid),
                forall|s: u16, sym: Seq<char>| s != sid ==> self.net(s, sym) == old(self).net(s, sym),
                forall|sym: Seq<char>|
                    (forall|i: int| 0 <= i < k ==> !(#[trigger] rows@[i].symbol@ == sym && rows@[i].net != 0))
                        ==> self.net(sid, sym) == old(self).net(sid, sym),
                forall|i: int|
                    0 <= i < k && #[trigger] rows@[i].net != 0 && (forall|j: int|
                        i < j < k ==> !(#[trigger] rows@[j].symbol@ == rows@[i].symbol@ && rows@[j].net != 0))
                        ==> self.net(sid, rows@[i].symbol@) == Some(rows@[i].net as int),
            decreases rows@.len() - k,
        {
            if rows[k].net != 0 {
                let ghost before = *self;
                self.update(sid, rows[k].symbol.as_str(), rows[k].net);
                proof {
                    let x = rows@[k as int].symbol@;
                    assert forall|sym: Seq<char>|
                        (forall|i: int| 0 <= i < k + 1 ==> !(#[trigger] rows@[i].symbol@ == sym && rows@[i].net != 0))
                            implies self.net(sid, sym) == old(self).net(sid, sym) by {
                        assert(!(rows@[k as int].symbol@ == sym && rows@[k as int].net != 0));
                        assert(sym != x);
                        assert(before.net(sid, sym) == old(self).net(sid, sym));
                    }
                    assert forall|i: int|
                        0 <= i < k + 1 && #[trigger] rows@[i].net != 0 && (forall|j: int|
                            i < j < k + 1 ==> !(#[trigger] rows@[j].symbol@ == rows@[i].symbol@ && rows@[j].net != 0))
                            implies self.net(sid, rows@[i].symbol@) == Some(rows@[i].net as int) by {
                        if i < k {
                            assert(!(rows@[k as int].symbol@ == rows@[i].symbol@ && rows@[k as int].net != 0));
                            assert(rows@[i].symbol@ != x);
                            assert forall|j: int| i < j < k implies !(#[trigger] rows@[j].symbol@ == rows@[i].symbol@ && rows@[j].net != 0) by {
                                assert(i < j < k + 1);
                            }
                        }
                    }
                }
            } else {
                proof {
                    assert forall|sym: Seq<char>|
                        (forall|i: int| 0 <= i < k + 1 ==> !(#[trigger] rows@[i].symbol@ == sym && rows@[i].net != 0))
                            implies self.net(sid, sym) == old(self).net(sid, sym) by {
                        assert forall|i: int| 0 <= i < k implies !(#[trigger] rows@[i].symbol@ == sym && rows@[i].net != 0) by {
                            assert(0 <= i < k + 1);
                        }
                    }
                    assert forall|i: int|
                        0 <= i < k + 1 && #[trigger] rows@[i].net != 0 && (forall|j: int|
                            i < j < k + 1 ==> !(#[trigger] rows@[j].symbol@ == rows@[i].symbol@ && rows@[j].net != 0))
                            implies self.net(sid, rows@[i].symbol@) == Some(rows@[i].net as int) by {
                        assert forall|j: int| i < j < k implies !(#[trigger] rows@[j].symbol@ == rows@[i].symbol@ && rows@[j].net != 0) by {
                            assert(i < j < k + 1);
                        }
                    }
                }
            }
            k = k + 1;
        }
    }

    /// The net of session `sid` in `symbol`, where it has one.
    pub fn net_of(&self, sid: u16, symbol: &str) -> (r: Option<i64>)
        requires
            self.wf(),
        ensures
            r matches Some(v) ==> self.net(sid, symbol@) == Some(v as int),
            r is None ==> self.net(sid, symbol@) is None,
    {
        match self.find(sid, symbol) {
            Some(k) => {
                proof {
                    self.lemma_net_at(k as int);
                }
                Some(self.entries[k].net)
            },
            None => None,
        }
    }

    /// Session `sid`'s positions, in the order they were first written;
    /// `None` where the session has no table.
    pub fn get_positions(&self, sid: u16) -> (r: Option<Vec<Position>>)
        requires
            self.wf(),
        ensures
            r is None <==> !self.has_table(sid),
            r matches Some(v) ==> {
                &&& forall|i: int| 0 <= i < v@.len() ==> self.net(sid, #[trigger] v@[i].symbol@) == Some(v@[i].net as int)
                &&& forall|sym: Seq<char>| #[trigger] self.net(sid, sym) is Some ==> lists(v@, sym)
                &&& symbols_distinct(v@)
            },
    {
        if !contains_u16(&self.tables, sid) {
            return None;
        }
        let mut out: Vec<Position> = Vec::new();
        let mut i: usize = 0;
        while i < self.entries.len()
            invariant
                self.wf(),
                i <= self.entries@.len(),
                forall|k: int| 0 <= k < out@.len() ==> self.net(sid, #[trigger] out@[k].symbol@) == Some(out@[k].net as int),
                forall|j: int|
                    0 <= j < i && #[trigger] self.entries@[j].session_id == sid ==> lists(out@, self.entries@[j].symbol@),
                symbols_distinct(out@),
                forall|k: int| 0 <= k < out@.len() ==> earlier_entry(self.entries@, sid, i as int, #[trigger] out@[k].symbol@),
            decreases self.entries@.len() - i,
        {
            if self.entries[i].session_id == sid {
                let ghost before = out@;
                out.push(Position { symbol: self.entries[i].symbol.clone(), net: self.entries[i].net });
                proof {
                    self.lemma_net_at(i as int);
                    assert forall|j: int|
                        0 <= j < i + 1 && #[trigger] self.entries@[j].session_id == sid implies lists(out@, self.entries@[j].symbol@) by {
                        if j < i {
                            assert(lists(before, self.entries@[j].symbol@));
                            let k = choose|k: int| 0 <= k < before.len() && #[trigger] before[k].symbol@ == self.entries@[j].symbol@;
                            assert(out@[k] == before[k]);
                        } else {
                            assert(out@[before.len() as int].symbol@ == self.entries@[j].symbol@);
                        }
                    }
                    assert forall|k: int| 0 <= k < out@.len() implies self.net(sid, #[trigger] out@[k].symbol@) == Some(out@[k].net as int) by {
                        if k < before.len() {
                            assert(out@[k] == before[k]);
                        }
                    }
                    let e = self.entries@;
                    assert forall|k: int| 0 <= k < out@.len() implies earlier_entry(e, sid, i + 1, #[trigger] out@[k].symbol@) by {
                        if k < before.len() {
                            assert(out@[k] == before[k]);
                            assert(earlier_entry(e, sid, i as int, before[k].symbol@));
                            let j = choose|j: int| 0 <= j < i && e[j].session_id == sid && #[trigger] e[j].symbol@ == before[k].symbol@;
                            assert(0 <= j < i + 1);
                        } else {
                            assert(e[i as int].symbol@ == out@[k].symbol@);
                        }
                    }
                    assert forall|a: int, b: int| 0 <= a < b < out@.len() implies #[trigger] out@[a].symbol@ != #[trigger] out@[b].symbol@ by {
                        if b < before.len() {
                            assert(out@[a] == before[a] && out@[b] == before[b]);
                        } else {
                            assert(out@[a] == before[a]);
                            assert(earlier_entry(e, sid, i as int, before[a].symbol@));
                            let j = choose|j: int| 0 <= j < i && e[j].session_id == sid && #[trigger] e[j].symbol@ == before[a].symbol@;
                            assert(!(e[j].session_id == e[i as int].session_id && e[j].symbol@ == e[i as int].symbol@));
                        }
                    }
                }
            } else {
                proof {
                    assert forall|j: int|
                        0 <= j < i + 1 && #[trigger] self.entries@[j].session_id == sid implies lists(out@, self.entries@[j].symbol@) by {
                        assert(j < i);
                    }
                    assert forall|k: int| 0 <= k < out@.len() implies earlier_entry(self.entries@, sid, i + 1, #[trigger] out@[k].symbol@) by {
                        let e = self.entries@;
                        assert(earlier_entry(e, sid, i as int, out@[k].symbol@));
                        let j = choose|j: int| 0 <= j < i && e[j].session_id == sid && #[trigger] e[j].symbol@ == out@[k].symbol@;
                        assert(0 <= j < i + 1);
                    }
                }
            }
            i = i + 1;
        }
        proof {
            assert forall|sym: Seq<char>| #[trigger] self.net(sid, sym) is Some implies lists(out@, sym) by {
                let j = choose|j: int| 0 <= j < self.entries@.len() && self.entries@[j].session_id == sid && #[trigger] self.entries@[j].symbol@ == sym;
                assert(self.entries@[j].session_id == sid);
            }
        }
        Some(out)
    }
}


/// A trading session: its id and the client holding it, if any.
#[derive(Debug)]
pub struct Session {
    pub session_id: u16,
    pub owner: Option<u64>,
}

/// Where an order event goes: the session it belongs to, the client
/// holding that session (if any), and the position it moved (if any).
#[derive(Debug)]
pub struct FillOutcome {
    pub session_id: u16,
    pub owner: Option<u64>,
    pub position: Option<Position>,
}

/// All sessions, and the positions of all sessions.
pub struct SessionTable {
    sessions: Vec<Session>,
    store: PositionDB,
    venue: Venue,
}

/// The index of session `sid` in `s`.
pub open spec fn session_index(s: Seq<Session>, sid: u16) -> Option<int> {
    if exists|k: int| 0 <= k < s.len() && #[trigger] s[k].session_id == sid {
        Some(choose|k: int| 0 <= k < s.len() && #[trigger] s[k].session_id == sid)
    } else {
        None
    }
}

impl SessionTable {
    /// `None` for an unknown session; else the client holding it, if any.
    pub closed spec fn owner(&self, sid: u16) -> Option<Option<u64>> {
        match session_index(self.sessions@, sid) {
            Some(k) => Some(self.sessions@[k].owner),
            None => None,
        }
    }

    pub closed spec fn positions_view(&self) -> PositionDB {
        self.store
    }

    pub closed spec fn venue_spec(&self) -> Venue {
        self.venue
    }

    pub closed spec fn wf(&self) -> bool {
        &&& self.store.wf()
        &&& forall|i: int, j: int|
            0 <= i < j < self.sessions@.len() ==> #[trigger] self.sessions@[i].session_id != #[trigger] self.sessions@[j].session_id
    }

    /// No session yet; positions as loaded into `store`.
    pub fn new(venue: Venue, store: PositionDB) -> (r: SessionTable)
        requires
            store.wf(),
        ensures
            r.wf(),
            forall|sid: u16| r.owner(sid) is None,
            r.positions_view() == store,
            r.venue_spec() == venue,
    {
        SessionTable { sessions: Vec::new(), store, venue }
    }

    proof fn lemma_owner_at(&self, k: int)
        requires
            self.wf(),
            0 <= k < self.sessions@.len(),
        ensures
            self.owner(self.sessions@[k].session_id) == Some(self.sessions@[k].owner),
    {
        let s = self.sessions@;
        let sid = s[k].session_id;
        assert(s[k].session_id == sid);
        let j = choose|j: int| 0 <= j < s.len() && #[trigger] s[j].session_id == sid;
        if j < k {
            assert(s[j].session_id != s[k].session_id);
        } else if k < j {
            assert(s[k].session_id != s[j].session_id);
        }
    }

    fn find(&self, sid: u16) -> (r: Option<usize>)
        requires
            self.wf(),
        ensures
            r matches Some(k) ==> k < self.sessions@.len() && self.sessions@[k as int].session_id == sid,
            r is None ==> self.owner(sid) is None,
    {
        let mut i: usize = 0;
        while i < self.sessions.len()
            invariant
                i <= self.sessions@.len(),
                forall|k: int| 0 <= k < i ==> #[trigger] self.sessions@[k].session_id != sid,
            decreases self.sessions@.len() - i,
        {
            if self.sessions[i].session_id == sid {
                return Some(i);
            }
            i = i + 1;
        }
        None
    }

    /// Session `sid` gets holder `owner`; the others keep theirs.
    fn set_owner(&mut self, sid: u16, owner: Option<u64>)
        requires
            old(self).wf(),
        ensures
            final(self).wf(),
            final(self).owner(sid) == Some(owner),
            forall|s: u16| s != sid ==> final(self).owner(s) == old(self).owner(s),
            final(self).store == old(self).store,
            final(self).venue == old(self).venue,
    {
        let ghost before = self.sessions@;
        match self.find(sid) {
            Some(k) => {
                self.sessions.set(k, Session { session_id: sid, owner });
                proof {
                    let now = self.sessions@;
                    assert forall|a: int, b: int| 0 <= a < b < now.len() implies #[trigger] now[a].session_id != #[trigger] now[b].session_id by {
                        assert(before[a].session_id != before[b].session_id);
                    }
                    self.lemma_owner_at(k as int);
                    assert forall|s: u16| s != sid implies self.owner(s) == old(self).owner(s) by {
                        if exists|j: int| 0 <= j < before.len() && #[trigger] before[j].session_id == s {
                            let j = choose|j: int| 0 <= j < before.len() && #[trigger] before[j].session_id == s;
                            assert(now[j] == before[j]);
                            old(self).lemma_owner_at(j);
                            self.lemma_owner_at(j);
                        } else if exists|j: int| 0 <= j < now.len() && #[trigger] now[j].session_id == s {
                            let j = choose|j: int| 0 <= j < now.len() && #[trigger] now[j].session_id == s;
                            assert(now[j] == before[j]);
                        }
                    }
                }
            },
            None => {
                self.sessions.push(Session { session_id: sid, owner });
                proof {
                    let now = self.sessions@;
                    let last = before.len() as int;
                    assert forall|j: int| 0 <= j < before.len() implies #[trigger] before[j].session_id != sid by {
                        if before[j].session_id == sid {
                            assert(exists|x: int| 0 <= x < before.len() && #[trigger] before[x].session_id == sid);
                        }
                    }
                    assert forall|a: int, b: int| 0 <= a < b < now.len() implies #[trigger] now[a].session_id != #[trigger] now[b].session_id by {
                        assert(now[a] == before[a]);
                        if b < last {
                            assert(now[b] == before[b]);
                        }
                    }
                    self.lemma_owner_at(last);
                    assert forall|s: u16| s != sid implies self.owner(s) == old(self).owner(s) by {
                        if exists|j: int| 0 <= j < before.len() && #[trigger] before[j].session_id == s {
                            let j = choose|j: int| 0 <= j < before.len() && #[trigger] before[j].session_id == s;
                            assert(now[j] == before[j]);
                            old(self).lemma_owner_at(j);
                            self.lemma_owner_at(j);
                        } else if exists|j: int| 0 <= j < now.len() && #[trigger] now[j].session_id == s {
                            let j = choose|j: int| 0 <= j < now.len() && #[trigger] now[j].session_id == s;
                            assert(j != last);
                            assert(now[j] == before[j]);
                        }
                    }
                }
            },
        }
    }

    /// Logs `client` into trading session `sid`. A session held by a client
    /// refuses with `DUPLICATE_LOGIN`; a free or new session is bound to
    /// `client`, a new one with a position table.
    pub fn login(&mut self, client: u64, sid: u16) -> (r: Result<(), i32>)
        requires
            old(self).wf(),
        ensures
            final(self).wf(),
            r is Err <==> old(self).owner(sid) matches Some(Some(_)),
            r matches Err(e) ==> e == DUPLICATE_LOGIN && *final(self) == *old(self),
            r is Ok ==> final(self).owner(sid) == Some(Some(client)),
            forall|s: u16| s != sid ==> final(self).owner(s) == old(self).owner(s),
            forall|s: u16, sym: Seq<char>| final(self).positions_view().net(s, sym) == old(self).positions_view().net(s, sym),
            r is Ok ==> final(self).positions_view().has_table(sid),
            final(self).venue_spec() == old(self).venue_spec(),
    {
        if let Some(k) = self.find(sid) {
            proof {
                self.lemma_owner_at(k as int);
            }
            if self.sessions[k].owner.is_some() {
                return Err(DUPLICATE_LOGIN);
            }
        }
        self.store.create_table(sid);
        self.set_owner(sid, Some(client));
        Ok(())
    }

    /// `client` went away: every session it held becomes free. Positions
    /// stay. Closing again changes nothing.
    pub fn close(&mut self, client: u64)
        requires
            old(self).wf(),
        ensures
            final(self).wf(),
            forall|s: u16| final(self).owner(s) == if old(self).owner(s) == Some(Some(client)) {
                Some(None::<u64>)
            } else {
                old(self).owner(s)
            },
            final(self).positions_view() == old(self).positions_view(),
            final(self).venue_spec() == old(self).venue_spec(),
    {
        let n = self.sessions.len();
        let mut i: usize = 0;
        while i < n
            invariant
                self.wf(),
                n == self.sessions@.len(),
                i <= n,
                self.store == old(self).store,
                self.venue == old(self).venue,
                forall|k: int| 0 <= k < n ==> #[trigger] self.sessions@[k].session_id == old(self).sessions@[k].session_id,
                forall|k: int| i <= k < n ==> #[trigger] self.sessions@[k].owner == old(self).sessions@[k].owner,
                forall|k: int| 0 <= k < i ==> #[trigger] self.sessions@[k].owner == if old(self).sessions@[k].owner == Some(client) {
                    None::<u64>
                } else {
                    old(self).sessions@[k].owner
                },
            decreases n - i,
        {
            if self.sessions[i].owner == Some(client) {
                let sid = self.sessions[i].session_id;
                let ghost before = self.sessions@;
                self.sessions.set(i, Session { session_id: sid, owner: None });
                proof {
                    let now = self.sessions@;
                    assert forall|a: int, b: int| 0 <= a < b < now.len() implies #[trigger] now[a].session_id != #[trigger] now[b].session_id by {
                        assert(before[a].session_id != before[b].session_id);
                    }
                }
            }
            i = i + 1;
        }
        proof {
            assert forall|s: u16| self.owner(s) == if old(self).owner(s) == Some(Some(client)) {
                Some(None::<u64>)
            } else {
                old(self).owner(s)
            } by {
                if exists|j: int| 0 <= j < n && #[trigger] old(self).sessions@[j].session_id == s {
                    let j = choose|j: int| 0 <= j < n && #[trigger] old(self).sessions@[j].session_id == s;
                    old(self).lemma_owner_at(j);
                    self.lemma_owner_at(j);
                } else if exists|j: int| 0 <= j < n && #[trigger] self.sessions@[j].session_id == s {
                    let j = choose|j: int| 0 <= j < n && #[trigger] self.sessions@[j].session_id == s;
                    assert(old(self).sessions@[j].session_id == s);
                }
            }
        }
    }

    /// An order event arrived. Its client order id names the session (high
    /// half); an id that is not a decimal `u64`, or names no session, is
    /// not the gateway's order (`None`, nothing changes). A fill moves the
    /// session's position in the symbol by `±delta` (`+` for a buy), where
    /// `delta` is `fill_delta` of the venue; no other event moves it.
    pub fn on_fill(&mut self, fill: &Fill) -> (r: Option<FillOutcome>)
        requires
            old(self).wf(),
        ensures
            final(self).wf(),
            forall|s: u16| final(self).owner(s) == old(self).owner(s),
            final(self).venue_spec() == old(self).venue_spec(),
            unsigned_of(fill.client_order_id@) is None ==> r is None && *final(self) == *old(self),
            unsigned_of(fill.client_order_id@) matches Some(cid) ==> {
                let sid = session_of(cid as u64) as u16;
                let before = old(self).positions_view().net(sid, fill.symbol@);
                let base = match before { Some(v) => v, None => 0int };
                let after = base + signed(fill.side, fill_delta(old(self).venue_spec(), fill.trade_volume as int, fill.commission as int));
                &&& (r is None <==> old(self).owner(sid) is None)
                &&& r is None ==> *final(self) == *old(self)
                &&& r matches Some(o) ==> {
                    &&& o.session_id == sid
                    &&& Some(o.owner) == old(self).owner(sid)
                    &&& (o.position is Some <==> (moves_position(fill.state) && i64::MIN <= after <= i64::MAX))
                    &&& o.position is None ==> final(self).positions_view() == old(self).positions_view()
                    &&& o.position matches Some(p) ==> {
                        &&& p.symbol@ == fill.symbol@
                        &&& p.net == after
                        &&& final(self).positions_view().net(sid, fill.symbol@) == Some(after)
                        &&& forall|s: u16, sym: Seq<char>| !(s == sid && sym == fill.symbol@) ==>
                            final(self).positions_view().net(s, sym) == old(self).positions_view().net(s, sym)
                    }
                }
            },
    {
        let cid = match parse_client_order_id(fill.client_order_id.as_str()) {
            Some(c) => c,
            None => return None,
        };
        let sid = ((cid / 4294967296) % 65536) as u16;
        let k = match self.find(sid) {
            Some(k) => k,
            None => return None,
        };
        proof {
            self.lemma_owner_at(k as int);
        }
        let owner = self.sessions[k].owner;
        if !(fill.state == State::FILLED || fill.state == State::PARTIALLY_FILLED) {
            return Some(FillOutcome { session_id: sid, owner, position: None });
        }
        let base: i64 = match self.store.net_of(sid, fill.symbol.as_str()) {
            Some(v) => v,
            None => 0,
        };
        let delta: i128 = match self.venue {
            Venue::Spot => fill.trade_volume as i128 - fill.commission as i128,
            Venue::Perpetual => fill.trade_volume as i128,
        };
        let after: i128 = match fill.side {
            Side::BUY => base as i128 + delta,
            Side::SELL => base as i128 - delta,
        };
        if after < i64::MIN as i128 || after > i64::MAX as i128 {
            return Some(FillOutcome { session_id: sid, owner, position: None });
        }
        let net = after as i64;
        self.store.update(sid, fill.symbol.as_str(), net);
        Some(FillOutcome { session_id: sid, owner, position: Some(Position { symbol: fill.symbol.clone(), net }) })
    }

    /// `None` for an unknown session; else the client holding it, if any.
    pub fn owner_of(&self, sid: u16) -> (r: Option<Option<u64>>)
        requires
            self.wf(),
        ensures
            r == self.owner(sid),
    {
        match self.find(sid) {
            Some(k) => {
                proof {
                    self.lemma_owner_at(k as int);
                }
                Some(self.sessions[k].owner)
            },
            None => None,
        }
    }

    /// The net of session `sid` in `symbol`, where it has one.
    pub fn net_of(&self, sid: u16, symbol: &str) -> (r: Option<i64>)
        requires
            self.wf(),
        ensures
            r matches Some(v) ==> self.positions_view().net(sid, symbol@) == Some(v as int),
            r is None ==> self.positions_view().net(sid, symbol@) is None,
    {
        self.store.net_of(sid, symbol)
    }

    /// The reply to `get_positions`: all of session `sid`'s positions
    /// (each symbol once) when `symbols` is empty, else the positions of the
    /// listed symbols that it has, in list order; nothing for a session
    /// without positions.
    pub fn positions(&self, sid: u16, symbols: &Vec<String>) -> (r: Vec<Position>)
        requires
            self.wf(),
        ensures
            symbols@.len() == 0 ==> {
                &&& forall|i: int| 0 <= i < r@.len() ==> self.positions_view().net(sid, #[trigger] r@[i].symbol@) == Some(r@[i].net as int)
                &&& forall|sym: Seq<char>| #[trigger] self.positions_view().net(sid, sym) is Some ==> lists(r@, sym)
                &&& symbols_distinct(r@)
            },
            symbols@.len() > 0 ==> position_pairs(r@) == selected(self.positions_view(), sid, symbols@),
    {
        if symbols.len() == 0 {
            return match self.store.get_positions(sid) {
                Some(v) => v,
                None => {
                    proof {
                        assert forall|sym: Seq<char>| #[trigger] self.store.net(sid, sym) is Some implies false by {
                            let j = choose|j: int| 0 <= j < self.store.entries@.len() && self.store.entries@[j].session_id == sid && #[trigger] self.store.entries@[j].symbol@ == sym;
                            assert(self.store.tables@.contains(self.store.entries@[j].session_id));
                        }
                    }
                    Vec::new()
                },
            };
        }
        let mut out: Vec<Position> = Vec::new();
        let mut j: usize = 0;
        proof {
            assert(symbols@.subrange(0, 0) =~= Seq::<String>::empty());
            assert(position_pairs(out@) =~= Seq::empty());
        }
        while j < symbols.len()
            invariant
                self.wf(),
                j <= symbols@.len(),
                position_pairs(out@) == selected(self.store, sid, symbols@.subrange(0, j as int)),
            decreases symbols@.len() - j,
        {
            let ghost before = out@;
            let ghost next = symbols@.subrange(0, j + 1);
            assert(next.drop_last() =~= symbols@.subrange(0, j as int));
            assert(next.last() == symbols@[j as int]);
            match self.store.net_of(sid, symbols[j].as_str()) {
                Some(v) => {
                    out.push(Position { symbol: symbols[j].clone(), net: v });
                    assert(position_pairs(out@) =~= position_pairs(before).push((symbols@[j as int]@, v as int)));
                },
                None => {},
            }
            j = j + 1;
        }
        assert(symbols@.subrange(0, j as int) =~= symbols@);
        out
    }
}

/// At most one client holds a session at any time, and a session id names
/// one session.
pub proof fn lemma_one_holder(t: &SessionTable, sid: u16, a: u64, b: u64)
    requires
        t.wf(),
        t.owner(sid) == Some(Some(a)),
        t.owner(sid) == Some(Some(b)),
    ensures
        a == b,
{
}

/// Positions as `(symbol, net)` pairs.
pub open spec fn position_pairs(v: Seq<Position>) -> Seq<(Seq<char>, int)> {
    v.map_values(|p: Position| (p.symbol@, p.net as int))
}

/// The positions session `sid` has among `syms`, in list order.
pub open spec fn selected(db: PositionDB, sid: u16, syms: Seq<String>) -> Seq<(Seq<char>, int)>
    decreases syms.len(),
{
    if syms.len() == 0 {
        Seq::empty()
    } else {
        let p = selected(db, sid, syms.drop_last());
        match db.net(sid, syms.last()@) {
            Some(v) => p.push((syms.last()@, v)),
            None => p,
        }
    }
}

/// No symbol appears twice in `v`.
pub open spec fn symbols_distinct(v: Seq<Position>) -> bool {
    forall|a: int, b: int| 0 <= a < b < v.len() ==> #[trigger] v[a].symbol@ != #[trigger] v[b].symbol@
}

/// Whether `sym` is one of `v`.
pub open spec fn named(v: Seq<String>, sym: Seq<char>) -> bool {
    exists|j: int| 0 <= j < v.len() && #[trigger] v[j]@ == sym
}

/// Whether an entry before `i` holds session `sid`'s position in `sym`.
pub open spec fn earlier_entry(e: Seq<Entry>, sid: u16, i: int, sym: Seq<char>) -> bool {
    exists|j: int| 0 <= j < i && e[j].session_id == sid && #[trigger] e[j].symbol@ == sym
}

/// Whether some position of `v` is in `sym`.
pub open spec fn lists(v: Seq<Position>, sym: Seq<char>) -> bool {
    exists|k: int| 0 <= k < v.len() && #[trigger] v[k].symbol@ == sym
}

/// Whether `v` holds `x`.
pub fn contains_u16(v: &Vec<u16>, x: u16) -> (r: bool)
    ensures
        r == v@.contains(x),
{
    let mut i: usize = 0;
    while i < v.len()
        invariant
            i <= v@.len(),
            forall|k: int| 0 <= k < i ==> v@[k] != x,
        decreases v@.len() - i,
    {
        if v[i] == x {
            assert(v@[i as int] == x);
            return true;
        }
        i = i + 1;
    }
    false
}

} // verus!
