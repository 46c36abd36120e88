//! The server and its clients together: the seat table, the channel, and
//! what each connected client holds. Whatever happens, a client that has
//! taken what waits for it holds the seats that are left.

use crate::login::UserId;
use crate::registration::rem_seats_ws::ChannelView;
use crate::registration::seat_view::{
    lemma_published_keeps_table, lemma_snapshot_is_table, overlay, LedgerView,
};
use crate::registration::SubjectId;
use vstd::prelude::*;

verus! {

/// `table` after the messages of `queue` were written over it, oldest
/// first.
pub open spec fn apply_all(table: Map<SubjectId, i64>, queue: Seq<Seq<(SubjectId, i64)>>) -> Map<
    SubjectId,
    i64,
>
    decreases queue.len(),
{
    if queue.len() == 0 {
        table
    } else {
        overlay(apply_all(table, queue.drop_last()), queue.last())
    }
}

/// The server with its clients.
pub struct SystemView {
    /// The seat table.
    pub ledger: LedgerView,
    /// The channel, with what waits for each connected client.
    pub channel: ChannelView,
    /// What each connected client holds of the seats left.
    pub clients: Map<u64, Map<SubjectId, i64>>,
}

/// What happens to the server and its clients.
pub enum SystemEvent {
    /// A student, or nobody, asks to be registered for exactly these
    /// subjects.
    Register(Option<UserId>, Set<SubjectId>),
    /// A client connects.
    Connect,
    /// The client with this number takes what waits for it.
    Deliver(u64),
    /// The client with this number goes away; if it comes back, it
    /// connects anew.
    Disconnect(u64),
}

impl SystemView {
    /// Every connected client is known, and will hold the seats that are
    /// left once it has taken what waits for it.
    pub open spec fn in_sync(self) -> bool {
        forall|id: u64| #[trigger]
            self.channel.queues.contains_key(id) ==> self.clients.contains_key(id) && apply_all(
                self.clients[id],
                self.channel.queues[id],
            ) == self.ledger.table()
    }

    /// The server and its clients after `event`. A registration changes
    /// the table and publishes, if it changes anything, the seats left of
    /// the subjects concerned; a client that connects holds nothing yet,
    /// and the snapshot waits for it; a client that takes what waits for
    /// it writes it over what it holds; a client that goes away is
    /// forgotten.
    pub open spec fn step(self, event: SystemEvent) -> SystemView {
        match event {
            SystemEvent::Register(student, target) => {
                let msg = self.ledger.published(student, target);
                SystemView {
                    ledger: self.ledger.registered(student, target),
                    channel: if msg.len() > 0 {
                        self.channel.publish(msg)
                    } else {
                        self.channel
                    },
                    ..self
                }
            },
            SystemEvent::Connect => {
                if self.channel.next < u64::MAX {
                    SystemView {
                        channel: self.channel.connect(self.ledger.snapshot()),
                        clients: self.clients.insert(self.channel.next, Map::empty()),
                        ..self
                    }
                } else {
                    self
                }
            },
            SystemEvent::Deliver(id) => {
                if self.channel.queues.contains_key(id) {
                    SystemView {
                        channel: self.channel.poll(id),
                        clients: self.clients.insert(
                            id,
                            apply_all(self.clients[id], self.channel.queues[id]),
                        ),
                        ..self
                    }
                } else {
                    self
                }
            },
            SystemEvent::Disconnect(id) => SystemView {
                channel: self.channel.disconnect(id),
                clients: self.clients.remove(id),
                ..self
            },
        }
    }

    /// The server and its clients after a run of events.
    pub open spec fn run(self, events: Seq<SystemEvent>) -> SystemView
        decreases events.len(),
    {
        if events.len() == 0 {
            self
        } else {
            self.run(events.drop_last()).step(events.last())
        }
    }
}

/// The registrations of the events are for finitely many subjects each.
pub open spec fn finite_targets(events: Seq<SystemEvent>) -> bool {
    forall|k: int|
        0 <= k < events.len() ==> ((#[trigger] events[k]) matches SystemEvent::Register(_, target)
            ==> target.finite())
}

/// Whatever happens, the clients stay in step with the table.
pub proof fn lemma_step_keeps_sync(s: SystemView, event: SystemEvent)
    requires
        s.ledger.wf(),
        s.in_sync(),
        event matches SystemEvent::Register(_, target) ==> target.finite(),
    ensures
        s.step(event).ledger.wf(),
        s.step(event).in_sync(),
{
    let t = s.step(event);
    match event {
        SystemEvent::Register(student, target) => {
            lemma_published_keeps_table(s.ledger, student, target);
            let msg = s.ledger.published(student, target);
            assert forall|id: u64| #[trigger] t.channel.queues.contains_key(id) implies
                t.clients.contains_key(id) && apply_all(t.clients[id], t.channel.queues[id])
                == t.ledger.table() by {
                assert(s.channel.queues.contains_key(id));
                if msg.len() > 0 {
                    assert(t.channel.queues[id].drop_last() =~= s.channel.queues[id]);
                } else {
                    assert(overlay(s.ledger.table(), msg) == s.ledger.table());
                }
            }
        },
        SystemEvent::Connect => {
            if s.channel.next < u64::MAX {
                lemma_snapshot_is_table(s.ledger, Map::empty());
                let q = seq![s.ledger.snapshot()];
                let none: Seq<Seq<(SubjectId, i64)>> = Seq::empty();
                let blank: Map<SubjectId, i64> = Map::empty();
                assert(q.drop_last() =~= none);
                assert(q.last() == s.ledger.snapshot());
                assert(apply_all(blank, none) == blank);
                assert(apply_all(blank, q) == overlay(apply_all(blank, none), q.last()));
                assert(apply_all(blank, q) == s.ledger.table());
                assert forall|id: u64| #[trigger] t.channel.queues.contains_key(id) implies
                    t.clients.contains_key(id) && apply_all(t.clients[id], t.channel.queues[id])
                    == t.ledger.table() by {
                    if id != s.channel.next {
                        assert(s.channel.queues.contains_key(id));
                    }
                }
            }
        },
        SystemEvent::Deliver(id0) => {
            assert forall|id: u64| #[trigger] t.channel.queues.contains_key(id) implies
                t.clients.contains_key(id) && apply_all(t.clients[id], t.channel.queues[id])
                == t.ledger.table() by {
                assert(s.channel.queues.contains_key(id));
            }
        },
        SystemEvent::Disconnect(id0) => {
            assert forall|id: u64| #[trigger] t.channel.queues.contains_key(id) implies
                t.clients.contains_key(id) && apply_all(t.clients[id], t.channel.queues[id])
                == t.ledger.table() by {
                assert(s.channel.queues.contains_key(id));
            }
        },
    }
}

/// After any run of registrations, connections, deliveries and
/// disconnections, a connected client that takes what waits for it holds
/// exactly the seats that are left: whether it was connected all along or
/// went away, missed publications, and connected anew.
pub proof fn lemma_clients_in_sync(s: SystemView, events: Seq<SystemEvent>, id: u64)
    requires
        s.ledger.wf(),
        s.in_sync(),
        finite_targets(events),
    ensures
        s.run(events).ledger.wf(),
        s.run(events).in_sync(),
        s.run(events).channel.queues.contains_key(id) ==> s.run(events).step(
            SystemEvent::Deliver(id),
        ).clients[id] == s.run(events).ledger.table(),
    decreases events.len(),
{
    if events.len() > 0 {
        let init = events.drop_last();
        assert forall|k: int| 0 <= k < init.len() implies ((#[trigger] init[k]) matches SystemEvent::Register(
            _,
            target,
        ) ==> target.finite()) by {
            assert(init[k] == events[k]);
        }
        lemma_clients_in_sync(s, init, id);
        assert(events[events.len() - 1] == events.last());
        lemma_step_keeps_sync(s.run(init), events.last());
    }
    let t = s.run(events);
    if t.channel.queues.contains_key(id) {
        assert(t.clients.contains_key(id));
    }
}

} // verus!
