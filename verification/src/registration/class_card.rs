//! What a subject's card shows: the seats that are left, as the server
//! last said, adjusted by the student's own unsaved choice.

use crate::class::{Class, Section, Type};
use crate::registration::rem_seats_ws::{seats_of_json, typed_seats, RemSeatsMsg};
use crate::registration::seat_view::overlay;
use crate::registration::subject_set::{strictly_increasing, SubjectSet};
use crate::registration::SubjectId;
use crate::utils::{decimal, decimal_string};
use vstd::prelude::*;

verus! {

/// Some entry of `msg` is for subject `id`.
pub open spec fn mentions(msg: Seq<(SubjectId, i64)>, id: SubjectId) -> bool {
    exists|k: int| 0 <= k < msg.len() && (#[trigger] msg[k]).0 == id
}

/// What a client knows about seats.
pub struct SeatsView {
    /// The seats left of each subject, as the server last said.
    pub table: Map<SubjectId, i64>,
    /// The subjects that the student switched since the server last spoke
    /// of them and since the selection was last saved or discarded.
    pub pending: Set<SubjectId>,
}

impl SeatsView {
    /// A client that has heard nothing yet.
    pub open spec fn empty() -> SeatsView {
        SeatsView { table: Map::empty(), pending: Set::empty() }
    }

    /// After a message of the server: its counts are written over the
    /// table, and the subjects that it speaks of are pending no longer.
    pub open spec fn receive(self, msg: Seq<(SubjectId, i64)>) -> SeatsView {
        SeatsView {
            table: overlay(self.table, msg),
            pending: self.pending.filter(|id: SubjectId| !mentions(msg, id)),
        }
    }

    /// After the student switched subject `id`.
    pub open spec fn local_toggle(self, id: SubjectId) -> SeatsView {
        SeatsView { pending: self.pending.insert(id), ..self }
    }

    /// After the selection was saved or discarded.
    pub open spec fn resolve(self) -> SeatsView {
        SeatsView { pending: Set::empty(), ..self }
    }

    /// The seats left of subject `id` as the server last said; 0 if it
    /// never spoke of it.
    pub open spec fn server_count(self, id: SubjectId) -> int {
        if self.table.contains_key(id) {
            self.table[id] as int
        } else {
            0
        }
    }

    /// The seats of subject `id` to show, before they are cut to what can
    /// be shown: what the server last said, one less if the student has
    /// since selected the subject without saving, one more if the student
    /// has since deselected it without saving.
    pub open spec fn expected(self, id: SubjectId, is_selected: bool, has_changed: bool) -> int {
        if self.pending.contains(id) && has_changed {
            if is_selected {
                self.server_count(id) - 1
            } else {
                self.server_count(id) + 1
            }
        } else {
            self.server_count(id)
        }
    }

    /// The seats of subject `id` to show: `expected`, but not below 0 and
    /// not above what a `u32` holds.
    pub open spec fn displayed(self, id: SubjectId, is_selected: bool, has_changed: bool) -> int {
        let n = self.expected(id, is_selected, has_changed);
        if n < 0 {
            0
        } else if n > u32::MAX {
            u32::MAX as int
        } else {
            n
        }
    }
}

/// Once the server has spoken of a subject, what is shown of it is what
/// the server said, whatever the student has pending.
pub proof fn lemma_broadcast_wins(
    s: SeatsView,
    msg: Seq<(SubjectId, i64)>,
    id: SubjectId,
    is_selected: bool,
    has_changed: bool,
)
    requires
        mentions(msg, id),
    ensures
        s.receive(msg).expected(id, is_selected, has_changed) == s.receive(msg).server_count(id),
        s.receive(msg).table.contains_key(id),
{
    lemma_overlay_mentions(s.table, msg, id);
}

/// Writing a message over a table leaves the table knowing what it knew
/// and every subject of the message; of a subject that the message does
/// not speak of, the table holds what it held.
pub proof fn lemma_overlay_mentions(table: Map<SubjectId, i64>, msg: Seq<(SubjectId, i64)>, id: SubjectId)
    ensures
        overlay(table, msg).contains_key(id) <==> (table.contains_key(id) || mentions(msg, id)),
        !mentions(msg, id) ==> overlay(table, msg)[id] == table[id],
    decreases msg.len(),
{
    if msg.len() > 0 {
        let init = msg.drop_last();
        lemma_overlay_mentions(table, init, id);
        if mentions(init, id) {
            let k = choose|k: int| 0 <= k < init.len() && (#[trigger] init[k]).0 == id;
            assert(msg[k].0 == id);
        }
        if msg.last().0 == id {
            assert(msg[msg.len() - 1].0 == id);
        }
        if mentions(msg, id) {
            let k = choose|k: int| 0 <= k < msg.len() && (#[trigger] msg[k]).0 == id;
            if k < init.len() {
                assert(init[k].0 == id);
            }
        }
    }
}

/// After saving or discarding, what is shown of every subject is what the
/// server last said.
pub proof fn lemma_resolve_exact(s: SeatsView, id: SubjectId, is_selected: bool, has_changed: bool)
    ensures
        s.resolve().expected(id, is_selected, has_changed) == s.server_count(id),
{
}

/// What a client knows about seats, and what it shows of them.
pub struct ClientSyncAdapter {
    ids: SubjectSet,
    counts: Vec<i64>,
    pending: SubjectSet,
}

/// In an ascending sequence each member has one position.
proof fn lemma_position(q: Seq<SubjectId>, i: int)
    requires
        strictly_increasing(q),
        0 <= i < q.len(),
    ensures
        q.index_of(q[i]) == i,
{
    let k = q.index_of(q[i]);
    assert(0 <= k < q.len() && q[k] == q[i]);
    if k < i {
        assert(q[k].0 < q[i].0);
    }
    if i < k {
        assert(q[i].0 < q[k].0);
    }
}

impl View for ClientSyncAdapter {
    type V = SeatsView;

    closed spec fn view(&self) -> SeatsView {
        SeatsView {
            table: Map::new(
                |id: SubjectId| self.ids@.contains(id),
                |id: SubjectId| self.counts@[self.ids.elements().index_of(id)],
            ),
            pending: self.pending@,
        }
    }
}

impl ClientSyncAdapter {
    /// What the adapter is stored in is consistent.
    pub closed spec fn wf(&self) -> bool {
        &&& self.ids.wf()
        &&& self.pending.wf()
        &&& self.counts.len() == self.ids.elements().len()
    }

    /// A client that has heard nothing yet.
    pub fn new() -> (r: Self)
        ensures
            r.wf(),
            r@ == SeatsView::empty(),
    {
        let r = ClientSyncAdapter {
            ids: SubjectSet::new(),
            counts: Vec::new(),
            pending: SubjectSet::new(),
        };
        proof {
            r.ids.lemma_elements();
            assert(r@.table =~= Map::empty());
        }
        r
    }

    /// Writes down that the server said `left` seats are left of `id`.
    fn set(&mut self, id: SubjectId, left: i64)
        requires
            old(self).wf(),
        ensures
            final(self).wf(),
            final(self)@.table == old(self)@.table.insert(id, left),
            final(self).pending == old(self).pending,
    {
        proof {
            self.ids.lemma_elements();
        }
        let ghost e0 = self.ids.elements();
        let ghost c0 = self.counts@;
        let (fresh, at) = self.ids.insert_at(id);
        if fresh {
            self.counts.insert(at, left);
        } else {
            self.counts[at] = left;
        }
        proof {
            self.ids.lemma_elements();
            let e1 = self.ids.elements();
            let t0 = old(self)@.table;
            let t1 = self@.table;
            lemma_position(e1, at as int);
            assert forall|x: SubjectId| t1.contains_key(x) implies #[trigger] t1[x] == t0.insert(
                id,
                left,
            )[x] by {
                if x != id {
                    assert(e0.to_set().contains(x));
                    assert(e0.contains(x));
                    let k = choose|k: int| 0 <= k < e0.len() && e0[k] == x;
                    lemma_position(e0, k);
                    let k1 = if fresh && k >= at {
                        k + 1
                    } else {
                        k
                    };
                    assert(e1[k1] == x);
                    lemma_position(e1, k1);
                }
            }
            assert(t1 =~= t0.insert(id, left));
        }
    }

    /// Takes a message of the server: its counts are written over what
    /// was known, and what the student has pending for the subjects that
    /// it speaks of is dropped.
    pub fn receive(&mut self, msg: &RemSeatsMsg)
        requires
            old(self).wf(),
        ensures
            final(self).wf(),
            final(self)@ == old(self)@.receive(msg@),
    {
        let ghost s = self@;
        let mut i: usize = 0;
        proof {
            assert(s.pending.filter(|id: SubjectId| !mentions(msg@.take(0), id)) =~= s.pending);
        }
        while i < msg.0.len()
            invariant
                i <= msg.0.len(),
                self.wf(),
                self@ == s.receive(msg@.take(i as int)),
            decreases msg.0.len() - i,
        {
            let (id, left) = msg.0[i];
            self.set(id, left);
            self.pending.remove(id);
            proof {
                let a = msg@.take(i as int);
                let b = msg@.take(i + 1);
                assert(b.drop_last() =~= a);
                assert(b.last() == (id, left));
                assert forall|x: SubjectId| mentions(b, x) <==> (mentions(a, x) || x == id) by {
                    if mentions(b, x) {
                        let k = choose|k: int| 0 <= k < b.len() && (#[trigger] b[k]).0 == x;
                        if k < i {
                            assert(a[k].0 == x);
                        }
                    }
                    if mentions(a, x) {
                        let k = choose|k: int| 0 <= k < a.len() && (#[trigger] a[k]).0 == x;
                        assert(b[k].0 == x);
                    }
                    if x == id {
                        assert(b[i as int].0 == x);
                    }
                }
                assert(self@.pending =~= s.pending.filter(|x: SubjectId| !mentions(b, x)));
            }
            i += 1;
        }
        proof {
            assert(msg@.take(msg.0.len() as int) =~= msg@);
        }
    }

    /// Takes the text of a message from the wire. A text that holds no
    /// message changes nothing, and `false` comes back.
    pub fn receive_text(&mut self, text: &str) -> (r: bool)
        requires
            old(self).wf(),
        ensures
            final(self).wf(),
            match seats_of_json(text@) {
                Some(raw) => r && final(self)@ == old(self)@.receive(typed_seats(raw)),
                None => !r && final(self)@ == old(self)@,
            },
    {
        match RemSeatsMsg::from_json(text) {
            Some(msg) => {
                self.receive(&msg);
                true
            },
            None => false,
        }
    }

    /// Starts over from the snapshot that the server sends to a client
    /// that connects: what was known before is forgotten.
    pub fn resync(&mut self, snapshot: &RemSeatsMsg)
        ensures
            final(self).wf(),
            final(self)@ == SeatsView::empty().receive(snapshot@),
    {
        *self = ClientSyncAdapter::new();
        self.receive(snapshot);
    }

    /// Notes that the student switched subject `id`.
    pub fn local_toggle(&mut self, id: SubjectId)
        requires
            old(self).wf(),
        ensures
            final(self).wf(),
            final(self)@ == old(self)@.local_toggle(id),
    {
        self.pending.insert(id);
    }

    /// Notes that the selection was saved or discarded.
    pub fn resolve(&mut self)
        requires
            old(self).wf(),
        ensures
            final(self).wf(),
            final(self)@ == old(self)@.resolve(),
    {
        self.pending = SubjectSet::new();
    }

    /// The seats left of subject `id` as the server last said, if it ever
    /// spoke of it.
    pub fn server_count(&self, id: SubjectId) -> (r: Option<i64>)
        requires
            self.wf(),
        ensures
            r == (if self@.table.contains_key(id) {
                Some(self@.table[id])
            } else {
                None
            }),
    {
        match self.ids.position(id) {
            Some(i) => {
                proof {
                    self.ids.lemma_elements();
                    lemma_position(self.ids.elements(), i as int);
                }
                Some(self.counts[i])
            },
            None => None,
        }
    }

    /// The seats of subject `id` to show on its card, for a subject that
    /// is selected or not, and changed since the last save or not.
    pub fn rem_seats(&self, id: SubjectId, is_selected: bool, has_changed: bool) -> (r: u32)
        requires
            self.wf(),
        ensures
            r == self@.displayed(id, is_selected, has_changed),
    {
        let base: i64 = match self.server_count(id) {
            Some(n) => n,
            None => 0,
        };
        let pending = has_changed && self.pending.contains(id);
        if pending && is_selected {
            if base <= 0 {
                0
            } else if base - 1 > u32::MAX as i64 {
                u32::MAX
            } else {
                (base - 1) as u32
            }
        } else if pending {
            if base < -1 {
                0
            } else if base >= u32::MAX as i64 {
                u32::MAX
            } else {
                (base + 1) as u32
            }
        } else if base < 0 {
            0
        } else if base > u32::MAX as i64 {
            u32::MAX
        } else {
            base as u32
        }
    }
}

/// The name of the professor of a lecture; empty for a lab or a tutorial.
pub fn extract_prof_name(lec: &Class) -> (r: String)
    ensures
        r@ == (match lec.ctype {
            Type::Lecture { prof } => prof@,
            _ => Seq::<char>::empty(),
        }),
{
    match &lec.ctype {
        Type::Lecture { prof } => prof.clone(),
        _ => String::new(),
    }
}

/// The section that a subject is for: that of its tutorial, else that of
/// its lab.
pub fn sec_no(tut: &Option<Class>, lab: &Option<Class>) -> (r: Option<Section>)
    ensures
        r == (match *tut {
            Some(t) if t.ctype.spec_section() is Some => t.ctype.spec_section(),
            _ => match *lab {
                Some(l) => l.ctype.spec_section(),
                None => None,
            },
        }),
{
    let first = match tut {
        Some(t) => t.ctype.section(),
        None => None,
    };
    match first {
        Some(s) => Some(s),
        None => match lab {
            Some(l) => l.ctype.section(),
            None => None,
        },
    }
}

/// The periods of a meeting as they are shown, counted from 1: the one
/// period, or the first and the last with an arrow between them.
pub open spec fn period_text(period: (usize, usize)) -> Seq<char> {
    if period.0 == period.1 {
        decimal((period.0 + 1) as nat)
    } else {
        decimal((period.0 + 1) as nat) + " \u{2192} "@ + decimal((period.1 + 1) as nat)
    }
}

pub fn format_period(period: (usize, usize)) -> (r: String)
    ensures
        r@ == period_text(period),
{
    let mut r = decimal_string(period.0 as u128 + 1);
    if period.0 != period.1 {
        r.append(" \u{2192} ");
        let last = decimal_string(period.1 as u128 + 1);
        r.append(last.as_str());
    }
    r
}

} // verus!
