//! What the server tells the clients about seats: the message with the
//! seats left of some subjects and its text on the wire, the life of one
//! client connection, and the channel that hands each message to every
//! connected client.

use crate::registration::SubjectId;
use vstd::prelude::*;

verus! {

/// The seats left of some subjects, as the server publishes them: each
/// subject with its number, which is below zero where more students are
/// registered than the subject has seats.
#[derive(PartialEq, Eq, Debug)]
pub struct RemSeatsMsg(pub Vec<(SubjectId, i64)>);

impl View for RemSeatsMsg {
    type V = Seq<(SubjectId, i64)>;

    open spec fn view(&self) -> Seq<(SubjectId, i64)> {
        self.0@
    }
}

impl Clone for RemSeatsMsg {
    fn clone(&self) -> (r: Self)
        ensures
            r@ == self@,
    {
        let mut v: Vec<(SubjectId, i64)> = Vec::new();
        let mut i: usize = 0;
        while i < self.0.len()
            invariant
                i <= self.0.len(),
                v@ == self.0@.take(i as int),
            decreases self.0.len() - i,
        {
            v.push(self.0[i]);
            proof {
                assert(self.0@.take(i + 1) =~= self.0@.take(i as int).push(self.0@[i as int]));
            }
            i += 1;
        }
        proof {
            assert(self.0@.take(self.0.len() as int) =~= self.0@);
        }
        RemSeatsMsg(v)
    }
}

/// The pairs of a message with the subjects' numbers in place of the
/// subjects.
pub open spec fn raw_seats(msg: Seq<(SubjectId, i64)>) -> Seq<(i64, i64)> {
    msg.map_values(|p: (SubjectId, i64)| (p.0.0, p.1))
}

/// The message whose pairs, with numbers for subjects, are `raw`.
pub open spec fn typed_seats(raw: Seq<(i64, i64)>) -> Seq<(SubjectId, i64)> {
    raw.map_values(|p: (i64, i64)| (SubjectId(p.0), p.1))
}

#[verifier::external_type_specification]
#[verifier::external_body]
pub struct ExJsonError(serde_json::Error);

/// The JSON text that `serde_json::to_string` gives for a list of pairs of
/// integers; nothing where it fails.
pub uninterp spec fn json_of_seats(seats: Seq<(i64, i64)>) -> Option<Seq<char>>;

/// The list of pairs of integers that `serde_json::from_str` reads from a
/// text; nothing where it fails.
pub uninterp spec fn seats_of_json(text: Seq<char>) -> Option<Seq<(i64, i64)>>;

/// Calls `serde_json::to_string` on a list of pairs of integers. Trusted:
/// the text that comes back, or the failure, depends on the list alone,
/// and is what `json_of_seats` names.
#[verifier::external_body]
fn seats_to_string(seats: &Vec<(i64, i64)>) -> (r: Result<String, serde_json::Error>)
    ensures
        match r {
            Ok(text) => json_of_seats(seats@) == Some(text@),
            Err(_) => json_of_seats(seats@) is None,
        },
{
    serde_json::to_string(seats)
}

/// Calls `serde_json::from_str` to read a list of pairs of integers.
/// Trusted: the list that comes back, or the failure, depends on the text
/// alone, and is what `seats_of_json` names.
#[verifier::external_body]
fn seats_from_str(text: &str) -> (r: Result<Vec<(i64, i64)>, serde_json::Error>)
    ensures
        match r {
            Ok(seats) => seats_of_json(text@) == Some(seats@),
            Err(_) => seats_of_json(text@) is None,
        },
{
    serde_json::from_str(text)
}

impl RemSeatsMsg {
    /// The message whose pairs, with numbers for subjects, are `raw`.
    pub fn from_raw(raw: Vec<(i64, i64)>) -> (r: RemSeatsMsg)
        ensures
            r@ == typed_seats(raw@),
    {
        let mut v: Vec<(SubjectId, i64)> = Vec::new();
        let mut i: usize = 0;
        while i < raw.len()
            invariant
                i <= raw.len(),
                v@ == typed_seats(raw@.take(i as int)),
            decreases raw.len() - i,
        {
            let (id, left) = raw[i];
            v.push((SubjectId(id), left));
            proof {
                assert(typed_seats(raw@.take(i + 1)) =~= typed_seats(raw@.take(i as int)).push(
                    (SubjectId(id), left),
                ));
            }
            i += 1;
        }
        proof {
            assert(raw@.take(raw.len() as int) =~= raw@);
        }
        RemSeatsMsg(v)
    }

    /// The pairs of the message with the subjects' numbers in place of
    /// the subjects.
    pub fn to_raw(&self) -> (r: Vec<(i64, i64)>)
        ensures
            r@ == raw_seats(self@),
    {
        let mut v: Vec<(i64, i64)> = Vec::new();
        let mut i: usize = 0;
        while i < self.0.len()
            invariant
                i <= self.0.len(),
                v@ == raw_seats(self@.take(i as int)),
            decreases self.0.len() - i,
        {
            let (id, left) = self.0[i];
            v.push((id.0, left));
            proof {
                assert(raw_seats(self@.take(i + 1)) =~= raw_seats(self@.take(i as int)).push(
                    (id.0, left),
                ));
            }
            i += 1;
        }
        proof {
            assert(self@.take(self.0.len() as int) =~= self@);
        }
        v
    }

    /// The message as the JSON text that goes over the wire, if it can be
    /// written as one.
    pub fn to_json(&self) -> (r: Option<String>)
        ensures
            match r {
                Some(text) => json_of_seats(raw_seats(self@)) == Some(text@),
                None => json_of_seats(raw_seats(self@)) is None,
            },
    {
        let raw = self.to_raw();
        match seats_to_string(&raw) {
            Ok(text) => Some(text),
            Err(_) => None,
        }
    }

    /// The message that a JSON text from the wire holds, if it holds one.
    pub fn from_json(text: &str) -> (r: Option<RemSeatsMsg>)
        ensures
            match seats_of_json(text@) {
                Some(raw) => r matches Some(msg) && msg@ == typed_seats(raw),
                None => r is None,
            },
    {
        match seats_from_str(text) {
            Ok(raw) => Some(RemSeatsMsg::from_raw(raw)),
            Err(_) => None,
        }
    }
}

/// How often a connection is pinged and how long it may stay silent, in
/// milliseconds. The silence allowed is more than two intervals, so that
/// one missed ping does not close a connection.
#[derive(Clone, Copy, PartialEq, Eq, Structural, Debug)]
pub struct Heartbeat {
    interval: u64,
    timeout: u64,
}

impl Heartbeat {
    #[verifier::type_invariant]
    pub closed spec fn valid(self) -> bool {
        0 < self.interval && 2 * self.interval < self.timeout
    }

    /// Milliseconds between two pings.
    pub closed spec fn spec_interval(self) -> u64 {
        self.interval
    }

    /// Milliseconds of silence after which a connection is closed.
    pub closed spec fn spec_timeout(self) -> u64 {
        self.timeout
    }

    /// What `valid` says about the two times.
    pub proof fn lemma_valid(self)
        ensures
            self.valid() <==> (0 < self.spec_interval() && 2 * self.spec_interval()
                < self.spec_timeout()),
    {
    }

    /// A heartbeat with these times, if the interval is more than nothing
    /// and the timeout more than two intervals.
    pub fn new(interval: u64, timeout: u64) -> (r: Option<Heartbeat>)
        ensures
            match r {
                Some(hb) => hb.valid() && hb.spec_interval() == interval && hb.spec_timeout()
                    == timeout,
                None => !(0 < interval && 2 * interval < timeout),
            },
    {
        if 0 < interval && interval <= u64::MAX / 2 && 2 * interval < timeout {
            Some(Heartbeat { interval, timeout })
        } else {
            None
        }
    }

    #[verifier::when_used_as_spec(spec_interval)]
    pub fn interval(self) -> (r: u64)
        ensures
            r == self.spec_interval(),
    {
        self.interval
    }

    #[verifier::when_used_as_spec(spec_timeout)]
    pub fn timeout(self) -> (r: u64)
        ensures
            r == self.spec_timeout(),
    {
        self.timeout
    }
}

/// Where a connection is in its life.
#[derive(Clone, Copy, PartialEq, Eq, Structural, Debug)]
pub enum WsState {
    /// Accepted, not started yet.
    New,
    /// Subscribed to the channel; the snapshot has not been sent yet.
    Syncing,
    /// The snapshot has been sent; publications are passed on.
    Open,
    /// Closed by the client, or for silence.
    Closed,
}

/// What happens to a connection.
#[derive(Debug)]
pub enum WsEvent {
    /// The connection was started.
    Started,
    /// The seats left of all subjects, fetched for this connection.
    Snapshot(RemSeatsMsg),
    /// A registration published seats left.
    Publish(RemSeatsMsg),
    /// The client sent a ping with this payload.
    Ping(Vec<u8>),
    /// The client answered a ping.
    Pong,
    /// The client closed the connection.
    Close,
    /// Time has passed.
    Tick,
    /// The client sent something else.
    Other,
}

/// What is to be done for a connection.
#[derive(PartialEq, Eq, Debug)]
pub enum WsAction {
    /// Subscribe the connection to the channel and fetch the snapshot.
    Subscribe,
    /// Send this text to the client.
    Text(String),
    /// Answer the client's ping with this payload.
    Pong(Vec<u8>),
    /// Ping the client.
    Ping,
    /// Confirm the close and stop.
    Close,
    /// Stop without more: the client was silent for too long, or a
    /// message could not be written.
    Stop,
    Nothing,
}

/// What an event holds.
pub enum EventView {
    Started,
    Snapshot(Seq<(SubjectId, i64)>),
    Publish(Seq<(SubjectId, i64)>),
    Ping(Seq<u8>),
    Pong,
    Close,
    Tick,
    Other,
}

/// What an action holds.
pub enum ActionView {
    Subscribe,
    Text(Seq<char>),
    Pong(Seq<u8>),
    Ping,
    Close,
    Stop,
    Nothing,
}

impl View for WsEvent {
    type V = EventView;

    open spec fn view(&self) -> EventView {
        match *self {
            WsEvent::Started => EventView::Started,
            WsEvent::Snapshot(msg) => EventView::Snapshot(msg@),
            WsEvent::Publish(msg) => EventView::Publish(msg@),
            WsEvent::Ping(bytes) => EventView::Ping(bytes@),
            WsEvent::Pong => EventView::Pong,
            WsEvent::Close => EventView::Close,
            WsEvent::Tick => EventView::Tick,
            WsEvent::Other => EventView::Other,
        }
    }
}

impl View for WsAction {
    type V = ActionView;

    open spec fn view(&self) -> ActionView {
        match *self {
            WsAction::Subscribe => ActionView::Subscribe,
            WsAction::Text(text) => ActionView::Text(text@),
            WsAction::Pong(bytes) => ActionView::Pong(bytes@),
            WsAction::Ping => ActionView::Ping,
            WsAction::Close => ActionView::Close,
            WsAction::Stop => ActionView::Stop,
            WsAction::Nothing => ActionView::Nothing,
        }
    }
}

/// A connection: its heartbeat, where it is in its life, when the client
/// was last heard and when it was last pinged.
pub struct ConnView {
    pub heartbeat: Heartbeat,
    pub state: WsState,
    pub last_seen: u64,
    pub last_ping: u64,
}

/// Milliseconds from `then` to `now`; none if `now` is the earlier.
pub open spec fn elapsed(now: u64, then: u64) -> int {
    if now >= then {
        now - then
    } else {
        0
    }
}

impl ConnView {
    /// The connection is subscribed and not closed.
    pub open spec fn alive(self) -> bool {
        self.state == WsState::Syncing || self.state == WsState::Open
    }

    /// The connection after it sent, or failed to send, the message
    /// `msg`: it goes on in state `then` where the message can be written
    /// as text, and is closed where it cannot.
    pub open spec fn sending(self, msg: Seq<(SubjectId, i64)>, then: WsState) -> (
        ConnView,
        ActionView,
    ) {
        match json_of_seats(raw_seats(msg)) {
            Some(text) => (ConnView { state: then, ..self }, ActionView::Text(text)),
            None => (ConnView { state: WsState::Closed, ..self }, ActionView::Stop),
        }
    }

    /// The connection after `event` at time `now`, and what is to be
    /// done. A new connection subscribes when it starts; a subscribed one
    /// sends the snapshot first and publications only after it; a ping is
    /// answered, and a ping or a pong counts as a sign of life; as time
    /// passes the client is pinged at each interval, and a client that was
    /// silent for longer than the timeout is stopped; a closed connection
    /// does nothing.
    pub open spec fn step(self, now: u64, event: EventView) -> (ConnView, ActionView) {
        match (self.state, event) {
            (WsState::Closed, _) => (self, ActionView::Nothing),
            (WsState::New, EventView::Started) => (
                ConnView { state: WsState::Syncing, last_seen: now, last_ping: now, ..self },
                ActionView::Subscribe,
            ),
            (_, EventView::Close) => (
                ConnView { state: WsState::Closed, ..self },
                ActionView::Close,
            ),
            (WsState::New, _) => (self, ActionView::Nothing),
            (WsState::Syncing, EventView::Snapshot(msg)) => self.sending(msg, WsState::Open),
            (WsState::Open, EventView::Publish(msg)) => self.sending(msg, WsState::Open),
            (_, EventView::Ping(bytes)) => (
                ConnView { last_seen: now, ..self },
                ActionView::Pong(bytes),
            ),
            (_, EventView::Pong) => (ConnView { last_seen: now, ..self }, ActionView::Nothing),
            (_, EventView::Tick) => {
                if elapsed(now, self.last_seen) > self.heartbeat.spec_timeout() {
                    (ConnView { state: WsState::Closed, ..self }, ActionView::Stop)
                } else if elapsed(now, self.last_ping) >= self.heartbeat.spec_interval() {
                    (ConnView { last_ping: now, ..self }, ActionView::Ping)
                } else {
                    (self, ActionView::Nothing)
                }
            },
            _ => (self, ActionView::Nothing),
        }
    }
}

/// A closed connection stays closed and does nothing.
pub proof fn lemma_closed_is_silent(c: ConnView, now: u64, event: EventView)
    requires
        c.state == WsState::Closed,
    ensures
        c.step(now, event) == (c, ActionView::Nothing),
{
}

/// Text is sent only by a connection that is sending its snapshot, or
/// that has sent it and passes a publication on: the snapshot comes
/// before every publication.
pub proof fn lemma_snapshot_first(c: ConnView, now: u64, event: EventView)
    requires
        c.step(now, event).1 is Text,
    ensures
        (c.state == WsState::Syncing && event is Snapshot) || (c.state == WsState::Open
            && event is Publish),
        c.step(now, event).0.state == WsState::Open,
{
}

/// A client that was heard no longer than two intervals ago is not
/// stopped for silence: one missed ping is forgiven.
pub proof fn lemma_one_missed_beat(c: ConnView, now: u64)
    requires
        c.heartbeat.valid(),
        c.alive(),
        elapsed(now, c.last_seen) <= 2 * c.heartbeat.spec_interval(),
    ensures
        c.step(now, EventView::Tick).0.alive(),
        !(c.step(now, EventView::Tick).1 is Stop),
{
    c.heartbeat.lemma_valid();
}

/// A client that was silent for longer than the timeout is stopped at the
/// next tick.
pub proof fn lemma_silence_stops(c: ConnView, now: u64)
    requires
        c.alive(),
        elapsed(now, c.last_seen) > c.heartbeat.spec_timeout(),
    ensures
        c.step(now, EventView::Tick).0.state == WsState::Closed,
        c.step(now, EventView::Tick).1 is Stop,
{
}

/// One client connection on the seats channel.
pub struct RemSeatsWs {
    heartbeat: Heartbeat,
    state: WsState,
    last_seen: u64,
    last_ping: u64,
}

impl View for RemSeatsWs {
    type V = ConnView;

    closed spec fn view(&self) -> ConnView {
        ConnView {
            heartbeat: self.heartbeat,
            state: self.state,
            last_seen: self.last_seen,
            last_ping: self.last_ping,
        }
    }
}

impl RemSeatsWs {
    /// A connection that was accepted at time `now`, not started yet.
    pub fn new(heartbeat: Heartbeat, now: u64) -> (r: Self)
        ensures
            r@ == (ConnView { heartbeat, state: WsState::New, last_seen: now, last_ping: now }),
            r@.heartbeat.valid(),
    {
        proof {
            use_type_invariant(&heartbeat);
        }
        RemSeatsWs { heartbeat, state: WsState::New, last_seen: now, last_ping: now }
    }

    /// Where the connection is in its life.
    pub fn state(&self) -> (r: WsState)
        ensures
            r == self@.state,
    {
        self.state
    }

    fn send(&mut self, msg: &RemSeatsMsg, then: WsState) -> (action: WsAction)
        ensures
            (final(self)@, action@) == old(self)@.sending(msg@, then),
    {
        match msg.to_json() {
            Some(text) => {
                self.state = then;
                WsAction::Text(text)
            },
            None => {
                self.state = WsState::Closed;
                WsAction::Stop
            },
        }
    }

    /// Takes what happened to the connection at time `now`, in
    /// milliseconds, and says what is to be done.
    pub fn handle(&mut self, now: u64, event: WsEvent) -> (action: WsAction)
        ensures
            (final(self)@, action@) == old(self)@.step(now, event@),
    {
        match (self.state, event) {
            (WsState::Closed, _) => WsAction::Nothing,
            (WsState::New, WsEvent::Started) => {
                self.state = WsState::Syncing;
                self.last_seen = now;
                self.last_ping = now;
                WsAction::Subscribe
            },
            (_, WsEvent::Close) => {
                self.state = WsState::Closed;
                WsAction::Close
            },
            (WsState::New, _) => WsAction::Nothing,
            (WsState::Syncing, WsEvent::Snapshot(msg)) => self.send(&msg, WsState::Open),
            (WsState::Open, WsEvent::Publish(msg)) => self.send(&msg, WsState::Open),
            (_, WsEvent::Ping(bytes)) => {
                self.last_seen = now;
                WsAction::Pong(bytes)
            },
            (_, WsEvent::Pong) => {
                self.last_seen = now;
                WsAction::Nothing
            },
            (_, WsEvent::Tick) => {
                let silent = if now >= self.last_seen {
                    now - self.last_seen
                } else {
                    0
                };
                let unpinged = if now >= self.last_ping {
                    now - self.last_ping
                } else {
                    0
                };
                if silent > self.heartbeat.timeout() {
                    self.state = WsState::Closed;
                    WsAction::Stop
                } else if unpinged >= self.heartbeat.interval() {
                    self.last_ping = now;
                    WsAction::Ping
                } else {
                    WsAction::Nothing
                }
            },
            _ => WsAction::Nothing,
        }
    }
}

/// What a queue of messages holds.
pub open spec fn queue_view(q: Seq<RemSeatsMsg>) -> Seq<Seq<(SubjectId, i64)>> {
    q.map_values(|m: RemSeatsMsg| m@)
}

/// The channel: for each connected client, the messages that wait to be
/// sent to it, and the number that the next client to connect gets.
pub struct ChannelView {
    pub queues: Map<u64, Seq<Seq<(SubjectId, i64)>>>,
    pub next: u64,
}

impl ChannelView {
    /// A channel without clients.
    pub open spec fn empty() -> ChannelView {
        ChannelView { queues: Map::empty(), next: 0 }
    }

    /// The channel after a client connected: it gets the next number, and
    /// the snapshot is the first message that waits for it. Nothing
    /// changes where the numbers have run out.
    pub open spec fn connect(self, snapshot: Seq<(SubjectId, i64)>) -> ChannelView {
        if self.next < u64::MAX {
            ChannelView {
                queues: self.queues.insert(self.next, seq![snapshot]),
                next: (self.next + 1) as u64,
            }
        } else {
            self
        }
    }

    /// The channel after `msg` was published: it waits for every
    /// connected client, after what waited before.
    pub open spec fn publish(self, msg: Seq<(SubjectId, i64)>) -> ChannelView {
        ChannelView {
            queues: Map::new(
                |id: u64| self.queues.contains_key(id),
                |id: u64| self.queues[id].push(msg),
            ),
            ..self
        }
    }

    /// The channel after what waited for client `id` was handed out.
    pub open spec fn poll(self, id: u64) -> ChannelView {
        if self.queues.contains_key(id) {
            ChannelView { queues: self.queues.insert(id, Seq::empty()), ..self }
        } else {
            self
        }
    }

    /// The channel after client `id` went away: what waited for it is
    /// lost.
    pub open spec fn disconnect(self, id: u64) -> ChannelView {
        ChannelView { queues: self.queues.remove(id), ..self }
    }
}

/// The channel that hands what is published to every connected client.
pub struct SeatBroadcastChannel {
    next: u64,
    ids: Vec<u64>,
    queues: Vec<Vec<RemSeatsMsg>>,
}

impl View for SeatBroadcastChannel {
    type V = ChannelView;

    closed spec fn view(&self) -> ChannelView {
        ChannelView {
            queues: Map::new(
                |id: u64| self.ids@.contains(id),
                |id: u64| queue_view(self.queues@[self.ids@.index_of(id)]@),
            ),
            next: self.next,
        }
    }
}

impl SeatBroadcastChannel {
    /// Each client is listed once, with its queue, under a number that is
    /// given out no more.
    pub closed spec fn wf(&self) -> bool {
        &&& self.ids@.no_duplicates()
        &&& self.ids.len() == self.queues.len()
        &&& forall|k: int| 0 <= k < self.ids.len() ==> (#[trigger] self.ids[k]) < self.next
    }

    proof fn lemma_at(&self, k: int)
        requires
            self.wf(),
            0 <= k < self.ids.len(),
        ensures
            self.ids@.index_of(self.ids[k]) == k,
            self@.queues.contains_key(self.ids[k]),
            self@.queues[self.ids[k]] == queue_view(self.queues[k]@),
    {
        let j = self.ids@.index_of(self.ids[k]);
        assert(self.ids@.contains(self.ids[k]));
        assert(0 <= j < self.ids.len() && self.ids[j] == self.ids[k]);
    }

    /// A channel without clients.
    pub fn new() -> (r: Self)
        ensures
            r.wf(),
            r@ == ChannelView::empty(),
    {
        let r = SeatBroadcastChannel { next: 0, ids: Vec::new(), queues: Vec::new() };
        proof {
            assert(r@.queues =~= Map::empty());
        }
        r
    }

    /// Number of connected clients.
    pub fn subscribers(&self) -> (n: usize)
        requires
            self.wf(),
        ensures
            n == self@.queues.dom().len(),
            self@.queues.dom().finite(),
    {
        proof {
            assert(self@.queues.dom() =~= self.ids@.to_set());
            self.ids@.unique_seq_to_set();
            vstd::seq_lib::seq_to_set_is_finite(self.ids@);
        }
        self.ids.len()
    }

    fn find(&self, id: u64) -> (r: Option<usize>)
        requires
            self.wf(),
        ensures
            match r {
                Some(k) => k < self.ids.len() && self.ids[k as int] == id,
                None => !self.ids@.contains(id),
            },
    {
        let mut k: usize = 0;
        while k < self.ids.len()
            invariant
                k <= self.ids.len(),
                forall|j: int| 0 <= j < k ==> self.ids[j] != id,
            decreases self.ids.len() - k,
        {
            if self.ids[k] == id {
                return Some(k);
            }
            k += 1;
        }
        None
    }

    /// Whether client `id` is connected.
    pub fn is_open(&self, id: u64) -> (r: bool)
        requires
            self.wf(),
        ensures
            r == self@.queues.contains_key(id),
    {
        self.find(id).is_some()
    }

    /// Connects a client: it gets a number, and `snapshot` is the first
    /// message that waits for it. No client is connected where the
    /// numbers have run out.
    pub fn connect(&mut self, snapshot: RemSeatsMsg) -> (r: Option<u64>)
        requires
            old(self).wf(),
        ensures
            final(self).wf(),
            final(self)@ == old(self)@.connect(snapshot@),
            r == (if old(self)@.next < u64::MAX {
                Some(old(self)@.next)
            } else {
                None
            }),
    {
        if self.next == u64::MAX {
            return None;
        }
        let id = self.next;
        let ghost before = *self;
        let mut queue: Vec<RemSeatsMsg> = Vec::new();
        queue.push(snapshot);
        self.ids.push(id);
        self.queues.push(queue);
        self.next = id + 1;
        proof {
            assert(queue_view(queue@) =~= seq![snapshot@]);
            assert forall|i: int, j: int|
                0 <= i < self.ids.len() && 0 <= j < self.ids.len() && i != j implies self.ids[i]
                != self.ids[j] by {
                if i < before.ids.len() {
                    assert(before.ids[i] < id);
                }
                if j < before.ids.len() {
                    assert(before.ids[j] < id);
                }
            }
            assert forall|k: int| 0 <= k < self.ids.len() implies (#[trigger] self.ids[k])
                < self.next by {
                if k < before.ids.len() {
                    assert(before.ids[k] < id);
                }
            }
            let expected = before@.connect(snapshot@);
            assert forall|x: u64| self@.queues.contains_key(x) <==> expected.queues.contains_key(
                x,
            ) by {
                if self.ids@.contains(x) {
                    let k = choose|k: int| 0 <= k < self.ids.len() && self.ids[k] == x;
                    if k < before.ids.len() {
                        assert(before.ids[k] == x);
                    }
                }
                if before.ids@.contains(x) {
                    let k = choose|k: int| 0 <= k < before.ids.len() && before.ids[k] == x;
                    assert(self.ids[k] == x);
                }
                if x == id {
                    assert(self.ids[self.ids.len() - 1] == x);
                }
            }
            assert forall|x: u64| self@.queues.contains_key(x) implies #[trigger] self@.queues[x]
                == expected.queues[x] by {
                let k = choose|k: int| 0 <= k < self.ids.len() && self.ids[k] == x;
                self.lemma_at(k);
                if k < before.ids.len() {
                    before.lemma_at(k);
                }
            }
            assert(self@.queues =~= expected.queues);
        }
        Some(id)
    }

    /// Publishes `msg`: it waits for every connected client, after what
    /// waited before.
    pub fn publish(&mut self, msg: &RemSeatsMsg)
        requires
            old(self).wf(),
        ensures
            final(self).wf(),
            final(self)@ == old(self)@.publish(msg@),
    {
        let ghost before = *self;
        let mut k: usize = 0;
        while k < self.queues.len()
            invariant
                k <= self.queues.len(),
                before.wf(),
                self.ids == before.ids,
                self.next == before.next,
                self.queues.len() == before.queues.len(),
                forall|j: int|
                    0 <= j < self.queues.len() ==> queue_view((#[trigger] self.queues[j])@) == (
                    if j < k {
                        queue_view(before.queues[j]@).push(msg@)
                    } else {
                        queue_view(before.queues[j]@)
                    }),
            decreases self.queues.len() - k,
        {
            let ghost q0 = self.queues[k as int]@;
            self.queues[k].push(msg.clone());
            proof {
                assert(queue_view(self.queues[k as int]@) =~= queue_view(q0).push(msg@));
            }
            k += 1;
        }
        proof {
            let expected = before@.publish(msg@);
            assert forall|x: u64| self@.queues.contains_key(x) implies #[trigger] self@.queues[x]
                == expected.queues[x] by {
                let j = choose|j: int| 0 <= j < self.ids.len() && self.ids[j] == x;
                self.lemma_at(j);
                before.lemma_at(j);
            }
            assert(self@.queues =~= expected.queues);
        }
    }

    /// Hands out what waits for client `id`, oldest first; nothing for a
    /// client that is not connected.
    pub fn poll(&mut self, id: u64) -> (r: Vec<RemSeatsMsg>)
        requires
            old(self).wf(),
        ensures
            final(self).wf(),
            final(self)@ == old(self)@.poll(id),
            queue_view(r@) == (if old(self)@.queues.contains_key(id) {
                old(self)@.queues[id]
            } else {
                Seq::empty()
            }),
    {
        let ghost before = *self;
        match self.find(id) {
            None => {
                let r: Vec<RemSeatsMsg> = Vec::new();
                proof {
                    assert(queue_view(r@) =~= Seq::empty());
                }
                r
            },
            Some(k) => {
                let mut r: Vec<RemSeatsMsg> = Vec::new();
                proof {
                    before.lemma_at(k as int);
                }
                std::mem::swap(&mut self.queues[k], &mut r);
                proof {
                    let expected = before@.poll(id);
                    assert(queue_view(self.queues[k as int]@) =~= Seq::empty());
                    assert forall|x: u64|
                        self@.queues.contains_key(x) implies #[trigger] self@.queues[x]
                        == expected.queues[x] by {
                        let j = choose|j: int| 0 <= j < self.ids.len() && self.ids[j] == x;
                        self.lemma_at(j);
                        before.lemma_at(j);
                    }
                    assert(self@.queues =~= expected.queues);
                }
                r
            },
        }
    }

    /// Disconnects client `id`: what waited for it is lost. Says whether
    /// the client was connected.
    pub fn disconnect(&mut self, id: u64) -> (r: bool)
        requires
            old(self).wf(),
        ensures
            final(self).wf(),
            final(self)@ == old(self)@.disconnect(id),
            r == old(self)@.queues.contains_key(id),
    {
        let ghost before = *self;
        match self.find(id) {
            None => {
                proof {
                    assert(self@.queues =~= before@.disconnect(id).queues);
                }
                false
            },
            Some(k) => {
                self.ids.remove(k);
                self.queues.remove(k);
                proof {
                    let expected = before@.disconnect(id);
                    assert forall|i: int| 0 <= i < self.ids.len() implies #[trigger] self.ids[i]
                        == before.ids[if i < k {
                        i
                    } else {
                        i + 1
                    }] by {}
                    assert forall|i: int, j: int|
                        0 <= i < self.ids.len() && 0 <= j < self.ids.len() && i != j implies self.ids[i]
                        != self.ids[j] by {}
                    assert forall|x: u64|
                        self@.queues.contains_key(x) <==> expected.queues.contains_key(x) by {
                        if self.ids@.contains(x) {
                            let i = choose|i: int| 0 <= i < self.ids.len() && self.ids[i] == x;
                            let bi = if i < k {
                                i
                            } else {
                                i + 1
                            };
                            assert(before.ids[bi] == x);
                        }
                        if before.ids@.contains(x) && x != id {
                            let i = choose|i: int|
                                0 <= i < before.ids.len() && before.ids[i] == x;
                            let ai = if i < k {
                                i
                            } else {
                                i - 1
                            };
                            assert(self.ids[ai] == x);
                        }
                    }
                    assert forall|x: u64|
                        self@.queues.contains_key(x) implies #[trigger] self@.queues[x]
                        == expected.queues[x] by {
                        let i = choose|i: int| 0 <= i < self.ids.len() && self.ids[i] == x;
                        let bi = if i < k {
                            i
                        } else {
                            i + 1
                        };
                        self.lemma_at(i);
                        before.lemma_at(bi);
                    }
                    assert(self@.queues =~= expected.queues);
                }
                true
            },
        }
    }
}

} // verus!
