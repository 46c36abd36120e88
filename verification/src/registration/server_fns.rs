//! The server's side of registration: the seat table, what is left of each
//! subject's seats, and the commit that replaces what a student is
//! registered for.

use crate::login::UserId;
use crate::registration::rem_seats_ws::RemSeatsMsg;
use crate::registration::seat_view::{
    ascending, lemma_ascending, lemma_ascending_exists, lemma_registration, lemma_taken_in_bound,
    rows_for, taken_in, without, LedgerView, RegistrationError, MAX_ROWS,
};
use crate::registration::subject_set::{strictly_increasing, SubjectSet};
use crate::registration::SubjectId;
use vstd::prelude::*;

verus! {

/// The seat table of the term: the subjects with their seats, and who is
/// registered for what.
pub struct SeatLedger {
    ids: SubjectSet,
    seats: Vec<u32>,
    rows: Vec<(UserId, SubjectId)>,
    capacity: usize,
}

impl View for SeatLedger {
    type V = LedgerView;

    closed spec fn view(&self) -> LedgerView {
        LedgerView {
            subjects: Seq::new(
                self.ids.elements().len(),
                |k: int| (self.ids.elements()[k], self.seats@[k]),
            ),
            rows: self.rows@,
            capacity: self.capacity as nat,
        }
    }
}

/// In an ascending sequence each member has one position.
proof fn lemma_index_of(q: Seq<SubjectId>, i: int)
    requires
        strictly_increasing(q),
        0 <= i < q.len(),
    ensures
        q.index_of(q[i]) == i,
{
    let k = q.index_of(q[i]);
    assert(0 <= k < q.len() && q[k] == q[i]);
    if k < i {
        assert(q[k].0 < q[i].0);
    }
    if i < k {
        assert(q[i].0 < q[k].0);
    }
}

impl SeatLedger {
    /// The table is consistent, and so is what it is stored in.
    pub closed spec fn wf(&self) -> bool {
        &&& self.ids.wf()
        &&& self.seats.len() == self.ids.elements().len()
        &&& self@.wf()
    }

    /// What a well-formed table holds is consistent.
    pub proof fn lemma_wf(&self)
        requires
            self.wf(),
        ensures
            self@.wf(),
    {
    }

    proof fn lemma_subjects(&self)
        requires
            self.ids.wf(),
            self.seats.len() == self.ids.elements().len(),
        ensures
            self@.subject_ids() == self.ids.elements(),
            forall|id: SubjectId| self@.knows(id) <==> self.ids@.contains(id),
            forall|i: int|
                0 <= i < self.seats.len() ==> self@.max_seats(
                    #[trigger] self.ids.elements()[i],
                ) == self.seats[i],
    {
        self.ids.lemma_elements();
        assert(self@.subject_ids() =~= self.ids.elements());
        assert forall|i: int| 0 <= i < self.seats.len() implies self@.max_seats(
            #[trigger] self.ids.elements()[i],
        ) == self.seats[i] by {
            lemma_index_of(self.ids.elements(), i);
        }
    }

    /// A table without subjects and without rows, that takes as many rows
    /// as any table does.
    pub fn new() -> (r: Self)
        ensures
            r.wf(),
            r@.subjects == Seq::<(SubjectId, u32)>::empty(),
            r@.rows == Seq::<(UserId, SubjectId)>::empty(),
            r@.capacity == MAX_ROWS,
    {
        Self::with_capacity(MAX_ROWS)
    }

    /// A table without subjects and without rows, that takes `capacity`
    /// rows, or as many as any table does if that is less.
    pub fn with_capacity(capacity: usize) -> (r: Self)
        ensures
            r.wf(),
            r@.subjects == Seq::<(SubjectId, u32)>::empty(),
            r@.rows == Seq::<(UserId, SubjectId)>::empty(),
            r@.capacity == (if capacity <= MAX_ROWS {
                capacity
            } else {
                MAX_ROWS
            }),
    {
        let r = SeatLedger {
            ids: SubjectSet::new(),
            seats: Vec::new(),
            rows: Vec::new(),
            capacity: if capacity <= MAX_ROWS {
                capacity
            } else {
                MAX_ROWS
            },
        };
        proof {
            r.ids.lemma_elements();
            assert(r.ids.elements() =~= Seq::empty()) by {
                assert(r.ids@.len() == 0);
            }
            assert(r@.subjects =~= Seq::empty());
            assert(r@.subject_ids() =~= Seq::empty());
        }
        r
    }

    /// Whether `id` is a subject of the term.
    pub fn knows(&self, id: SubjectId) -> (r: bool)
        requires
            self.wf(),
        ensures
            r == self@.knows(id),
    {
        proof {
            self.lemma_subjects();
        }
        self.ids.contains(id)
    }

    /// Makes `id` a subject of the term with `max_seats` seats, or gives
    /// it that many seats if it is one already; says whether it is new.
    pub fn add_subject(&mut self, id: SubjectId, max_seats: u32) -> (r: bool)
        requires
            old(self).wf(),
        ensures
            final(self).wf(),
            r == !old(self)@.knows(id),
            final(self)@.rows == old(self)@.rows,
            final(self)@.capacity == old(self)@.capacity,
            forall|x: SubjectId| final(self)@.knows(x) <==> (old(self)@.knows(x) || x == id),
            final(self)@.max_seats(id) == max_seats,
            forall|x: SubjectId|
                x != id && old(self)@.knows(x) ==> #[trigger] final(self)@.max_seats(x) == old(
                    self,
                )@.max_seats(x),
    {
        proof {
            self.lemma_subjects();
            self.ids.lemma_elements();
        }
        let ghost e0 = self.ids.elements();
        let ghost s0 = self.seats@;
        assert(s0.len() == e0.len());
        let (fresh, at) = self.ids.insert_at(id);
        assert(self.seats@ == s0);
        if fresh {
            assert(self.ids.elements().len() == e0.len() + 1);
            self.seats.insert(at, max_seats);
        } else {
            self.seats[at] = max_seats;
        }
        proof {
            self.lemma_subjects();
            self.ids.lemma_elements();
            let e1 = self.ids.elements();
            assert forall|x: SubjectId|
                x != id && old(self)@.knows(x) implies #[trigger] self@.max_seats(x) == old(
                self,
            )@.max_seats(x) by {
                assert(e0.to_set().contains(x));
                assert(e0.contains(x));
                let k = choose|k: int| 0 <= k < e0.len() && e0[k] == x;
                if fresh {
                    let k1 = if k < at {
                        k
                    } else {
                        k + 1
                    };
                    assert(e1[k1] == x);
                    assert(self.seats@[k1] == s0[k]);
                } else {
                    assert(e1[k] == x);
                    assert(self.seats@[k] == s0[k]);
                }
            }
            assert forall|k: int| 0 <= k < self@.rows.len() implies self@.knows(
                (#[trigger] self@.rows[k]).1,
            ) by {
                assert(old(self)@.knows(old(self)@.rows[k].1));
            }
        }
        fresh
    }

    /// Number of students registered for subject `id`.
    pub fn taken(&self, id: SubjectId) -> (n: usize)
        requires
            self.wf(),
        ensures
            n == self@.taken(id),
            n <= MAX_ROWS,
    {
        let mut n: usize = 0;
        let mut i: usize = 0;
        while i < self.rows.len()
            invariant
                i <= self.rows.len(),
                n == taken_in(self.rows@.take(i as int), id),
                n <= i,
            decreases self.rows.len() - i,
        {
            proof {
                assert(self.rows@.take(i + 1).drop_last() =~= self.rows@.take(i as int));
            }
            if self.rows[i].1 == id {
                n += 1;
            }
            i += 1;
        }
        proof {
            assert(self.rows@.take(self.rows.len() as int) =~= self.rows@);
        }
        n
    }

    /// Seats of subject `id` that are left, if it is a subject of the
    /// term.
    pub fn remaining(&self, id: SubjectId) -> (r: Option<i64>)
        requires
            self.wf(),
        ensures
            r == (if self@.knows(id) {
                Some(self@.remaining(id) as i64)
            } else {
                None
            }),
            self@.knows(id) ==> i64::MIN <= self@.remaining(id) <= i64::MAX,
    {
        proof {
            self.lemma_subjects();
        }
        match self.ids.position(id) {
            Some(i) => {
                let taken = self.taken(id);
                Some(self.seats[i] as i64 - taken as i64)
            },
            None => None,
        }
    }

    /// The subjects that `student` is registered for.
    pub fn subscribed(&self, student: UserId) -> (r: SubjectSet)
        requires
            self.wf(),
        ensures
            r.wf(),
            r@ == self@.stored(student),
    {
        let mut r = SubjectSet::new();
        let mut i: usize = 0;
        while i < self.rows.len()
            invariant
                i <= self.rows.len(),
                r.wf(),
                forall|id: SubjectId|
                    r@.contains(id) <==> self.rows@.take(i as int).contains((student, id)),
            decreases self.rows.len() - i,
        {
            let ghost before = r@;
            let row = self.rows[i];
            if row.0 == student {
                r.insert(row.1);
            }
            proof {
                let a = self.rows@.take(i as int);
                let b = self.rows@.take(i + 1);
                assert forall|id: SubjectId| r@.contains(id) <==> b.contains((student, id)) by {
                    if b.contains((student, id)) {
                        let k = choose|k: int| 0 <= k < b.len() && b[k] == (student, id);
                        if k < i {
                            assert(a[k] == (student, id));
                        }
                    }
                    if a.contains((student, id)) {
                        let k = choose|k: int| 0 <= k < a.len() && a[k] == (student, id);
                        assert(b[k] == (student, id));
                    }
                    if row == (student, id) {
                        assert(b[i as int] == (student, id));
                    }
                }
            }
            i += 1;
        }
        proof {
            assert(self.rows@.take(self.rows.len() as int) =~= self.rows@);
            assert(r@ =~= self@.stored(student));
        }
        r
    }

    /// The seats left of the subjects of `ids` that are of the term, in
    /// ascending order of the subjects; of every subject of the term if no
    /// subjects are given.
    pub fn remaining_for(&self, ids: Option<&SubjectSet>) -> (r: RemSeatsMsg)
        requires
            self.wf(),
            ids matches Some(s) ==> s.wf(),
        ensures
            r@ == (match ids {
                Some(s) => self@.counts_for(ascending(s@)),
                None => self@.snapshot(),
            }),
    {
        let wanted = match ids {
            Some(s) => s,
            None => &self.ids,
        };
        proof {
            self.lemma_subjects();
            wanted.lemma_elements();
            lemma_ascending(wanted.elements());
        }
        let ghost elems = wanted.elements();
        let mut out: Vec<(SubjectId, i64)> = Vec::new();
        let n = wanted.len();
        let mut i: usize = 0;
        while i < n
            invariant
                i <= n,
                n == elems.len(),
                elems == wanted.elements(),
                wanted.wf(),
                self.wf(),
                out@ == self@.counts_for(elems.take(i as int)),
            decreases n - i,
        {
            let id = wanted.get(i);
            proof {
                assert(elems.take(i + 1).drop_last() =~= elems.take(i as int));
            }
            match self.remaining(id) {
                Some(left) => {
                    out.push((id, left));
                },
                None => {},
            }
            i += 1;
        }
        proof {
            assert(elems.take(n as int) =~= elems);
        }
        RemSeatsMsg(out)
    }

    /// The rows of `student` give way to one row for each subject of
    /// `target`, unless the table cannot take them: then nothing changes
    /// and `false` comes back.
    fn replace_rows(&mut self, student: UserId, target: &SubjectSet) -> (done: bool)
        requires
            old(self).ids.wf(),
            old(self).seats.len() == old(self).ids.elements().len(),
            target.wf(),
        ensures
            final(self).ids == old(self).ids,
            final(self).seats == old(self).seats,
            final(self).capacity == old(self).capacity,
            done == (without(old(self).rows@, student).len() + target@.len() <= old(
                self,
            ).capacity),
            done ==> final(self)@ == old(self)@.replaced(student, target@),
            !done ==> final(self).rows == old(self).rows,
    {
        let mut rows: Vec<(UserId, SubjectId)> = Vec::new();
        let mut i: usize = 0;
        while i < self.rows.len()
            invariant
                i <= self.rows.len(),
                rows@ == without(self.rows@.take(i as int), student),
                rows.len() <= i,
            decreases self.rows.len() - i,
        {
            proof {
                assert(self.rows@.take(i + 1).drop_last() =~= self.rows@.take(i as int));
            }
            let row = self.rows[i];
            if row.0 != student {
                rows.push(row);
            }
            i += 1;
        }
        proof {
            assert(self.rows@.take(self.rows.len() as int) =~= self.rows@);
            target.lemma_elements();
            lemma_ascending(target.elements());
        }
        let n = target.len();
        if rows.len() > self.capacity || n > self.capacity - rows.len() {
            return false;
        }
        let ghost kept = rows@;
        let ghost elems = target.elements();
        let mut j: usize = 0;
        while j < n
            invariant
                j <= n,
                n == elems.len(),
                elems == target.elements(),
                target.wf(),
                rows@ == kept + rows_for(student, elems.take(j as int)),
            decreases n - j,
        {
            let id = target.get(j);
            rows.push((student, id));
            proof {
                assert(rows_for(student, elems.take(j + 1)) =~= rows_for(
                    student,
                    elems.take(j as int),
                ).push((student, id)));
            }
            j += 1;
        }
        proof {
            assert(elems.take(n as int) =~= elems);
        }
        self.rows = rows;
        true
    }
}

/// Registers `student` for exactly the subjects of `new`, and says what to
/// publish: the seats now left of the subjects that the student took up or
/// gave up, in ascending order. Nothing is published, and the table is
/// left as it was, where the student is registered for exactly these
/// already, and where the registration is refused: because nobody is
/// asking, because a subject of `new` is not of the term, or because the
/// table cannot take the rows.
pub fn register_subjects(ledger: &mut SeatLedger, student: Option<UserId>, new: &SubjectSet) -> (r:
    Result<RemSeatsMsg, RegistrationError>)
    requires
        old(ledger).wf(),
        new.wf(),
    ensures
        final(ledger).wf(),
        final(ledger)@ == old(ledger)@.registered(student, new@),
        match r {
            Ok(msg) => old(ledger)@.refusal(student, new@) is None && msg@ == old(
                ledger,
            )@.published(student, new@),
            Err(e) => old(ledger)@.refusal(student, new@) == Some(e),
        },
{
    let ghost l = ledger@;
    let u = match student {
        Some(u) => u,
        None => {
            return Err(RegistrationError::Unauthorized);
        },
    };
    proof {
        ledger.lemma_subjects();
        new.lemma_elements();
        lemma_ascending(new.elements());
    }
    let ghost elems = new.elements();
    let n = new.len();
    let mut i: usize = 0;
    while i < n
        invariant
            i <= n,
            n == elems.len(),
            elems == new.elements(),
            new.wf(),
            ledger.wf(),
            ledger@ == l,
            student == Some(u),
            forall|k: int| 0 <= k < i ==> l.knows(#[trigger] elems[k]),
        decreases n - i,
    {
        let id = new.get(i);
        if !ledger.knows(id) {
            proof {
                new.lemma_elements();
                let unknown = l.unknown(new@);
                assert(unknown.contains(id));
                assert(unknown.subset_of(new@));
                vstd::set_lib::lemma_len_subset(unknown, new@);
                lemma_ascending_exists(unknown);
                let a = ascending(unknown);
                assert(a.to_set().contains(id));
                assert(a.contains(id));
                let k = choose|k: int| 0 <= k < a.len() && a[k] == id;
                assert(a.contains(a[0]));
                assert(a.to_set().contains(a[0]));
                assert(new@.contains(a[0]));
                assert(elems.to_set().contains(a[0]));
                assert(elems.contains(a[0]));
                let j = choose|j: int| 0 <= j < elems.len() && elems[j] == a[0];
                if j < i {
                    assert(l.knows(elems[j]));
                }
                if j > i {
                    assert(elems[i as int].0 < elems[j].0);
                    if k > 0 {
                        assert(a[0].0 < a[k].0);
                    }
                }
                assert(a[0] == id);
                assert(!Set::<SubjectId>::empty().contains(id));
                assert(unknown != Set::<SubjectId>::empty());
                assert(student == Some(u));
                assert(l.refusal(student, new@) == Some(RegistrationError::UnknownSubject(id)));
            }
            return Err(RegistrationError::UnknownSubject(id));
        }
        i += 1;
    }
    proof {
        let unknown = l.unknown(new@);
        assert(unknown =~= Set::empty()) by {
            assert forall|id: SubjectId| !unknown.contains(id) by {
                if new@.contains(id) {
                    assert(elems.to_set().contains(id));
                    assert(elems.contains(id));
                    let k = choose|k: int| 0 <= k < elems.len() && elems[k] == id;
                    assert(l.knows(elems[k]));
                }
            }
        }
    }
    let stored = ledger.subscribed(u);
    let diff = new.symmetric_difference(&stored);
    proof {
        diff.lemma_elements();
        lemma_ascending(diff.elements());
        assert(diff@ == l.diff(u, new@));
    }
    if diff.is_empty() {
        proof {
            assert(l.published(student, new@) =~= Seq::empty()) by {
                assert(diff.elements() =~= Seq::empty()) by {
                    assert(diff@.len() == 0);
                }
            }
        }
        return Ok(RemSeatsMsg(Vec::new()));
    }
    if !ledger.replace_rows(u, new) {
        return Err(RegistrationError::CommitFailed);
    }
    proof {
        lemma_registration(l, u, new@);
        assert(ledger@ == l.registered(student, new@));
    }
    Ok(ledger.remaining_for(Some(&diff)))
}

/// The seats left of the subjects listed in `subjects` that are of the
/// term, in ascending order of the subjects; of every subject of the term
/// if none is listed.
pub fn get_rem_seats(subjects: &[SubjectId], ledger: &SeatLedger) -> (r: RemSeatsMsg)
    requires
        ledger.wf(),
    ensures
        r@ == (if subjects@.len() == 0 {
            ledger@.snapshot()
        } else {
            ledger@.counts_for(ascending(subjects@.to_set()))
        }),
{
    if subjects.len() == 0 {
        ledger.remaining_for(None)
    } else {
        let ids = SubjectSet::from_slice(subjects);
        ledger.remaining_for(Some(&ids))
    }
}

/// The subjects that `student` is registered for; refused where nobody is
/// asking.
pub fn get_subbed_subjects(ledger: &SeatLedger, student: Option<UserId>) -> (r: Result<
    SubjectSet,
    RegistrationError,
>)
    requires
        ledger.wf(),
    ensures
        match r {
            Ok(s) => student matches Some(u) && s.wf() && s@ == ledger@.stored(u),
            Err(e) => student is None && e == RegistrationError::Unauthorized,
        },
{
    match student {
        Some(u) => Ok(ledger.subscribed(u)),
        None => Err(RegistrationError::Unauthorized),
    }
}

} // verus!
