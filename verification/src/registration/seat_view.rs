//! The server's seat table as mathematics: the subjects of the term with
//! their capacity, the subscription rows, and what a registration does to
//! them. The laws of the registration are proved here.

use crate::login::UserId;
use crate::registration::subject_set::{
    lemma_increasing_unique, strictly_increasing, symmetric_difference,
};
use crate::registration::SubjectId;
use vstd::prelude::*;

verus! {

/// Most subscription rows that any seat table holds.
pub const MAX_ROWS: usize = 0x7fff_ffff;

/// Why a registration, or asking for the saved subjects, was refused.
#[derive(Copy, Clone, PartialEq, Eq, Structural, Debug)]
pub enum RegistrationError {
    /// No student is known to be asking.
    Unauthorized,
    /// The subject is not one of the term.
    UnknownSubject(SubjectId),
    /// The table cannot take the rows; nothing was written.
    CommitFailed,
}

/// The members of a finite set in ascending order.
pub open spec fn ascending(s: Set<SubjectId>) -> Seq<SubjectId> {
    choose|q: Seq<SubjectId>| strictly_increasing(q) && q.to_set() == s
}

/// An ascending sequence is the ascending sequence of its members.
pub proof fn lemma_ascending(q: Seq<SubjectId>)
    requires
        strictly_increasing(q),
    ensures
        ascending(q.to_set()) == q,
{
    let a = ascending(q.to_set());
    assert(strictly_increasing(a) && a.to_set() == q.to_set());
    lemma_increasing_unique(a, q);
}

/// Number of rows of `rows` that are for subject `id`.
pub open spec fn taken_in(rows: Seq<(UserId, SubjectId)>, id: SubjectId) -> nat
    decreases rows.len(),
{
    if rows.len() == 0 {
        0
    } else {
        taken_in(rows.drop_last(), id) + (if rows.last().1 == id {
            1nat
        } else {
            0nat
        })
    }
}

/// The rows of `rows` that are not of `student`, in their order.
pub open spec fn without(rows: Seq<(UserId, SubjectId)>, student: UserId) -> Seq<
    (UserId, SubjectId),
>
    decreases rows.len(),
{
    if rows.len() == 0 {
        Seq::empty()
    } else if rows.last().0 != student {
        without(rows.drop_last(), student).push(rows.last())
    } else {
        without(rows.drop_last(), student)
    }
}

/// One row of `student` for each subject of `ids`, in their order.
pub open spec fn rows_for(student: UserId, ids: Seq<SubjectId>) -> Seq<(UserId, SubjectId)> {
    ids.map_values(|s: SubjectId| (student, s))
}

/// The server's seat table.
pub struct LedgerView {
    /// The subjects of the term with the seats that each has, in
    /// ascending order of the subjects.
    pub subjects: Seq<(SubjectId, u32)>,
    /// The subscriptions: a row for each student and subject that the
    /// student is registered for.
    pub rows: Seq<(UserId, SubjectId)>,
    /// Most rows that the table takes.
    pub capacity: nat,
}

impl LedgerView {
    /// The subjects of the term in ascending order.
    pub open spec fn subject_ids(self) -> Seq<SubjectId> {
        self.subjects.map_values(|s: (SubjectId, u32)| s.0)
    }

    /// `id` is a subject of the term.
    pub open spec fn knows(self, id: SubjectId) -> bool {
        self.subject_ids().contains(id)
    }

    /// The seats that subject `id` has.
    pub open spec fn max_seats(self, id: SubjectId) -> int {
        self.subjects[self.subject_ids().index_of(id)].1 as int
    }

    /// Number of students registered for subject `id`.
    pub open spec fn taken(self, id: SubjectId) -> nat {
        taken_in(self.rows, id)
    }

    /// Seats of subject `id` that are left; below zero where more students
    /// are registered than it has seats.
    pub open spec fn remaining(self, id: SubjectId) -> int {
        self.max_seats(id) - self.taken(id)
    }

    /// The subjects that `student` is registered for.
    pub open spec fn stored(self, student: UserId) -> Set<SubjectId> {
        Set::new(|id: SubjectId| self.rows.contains((student, id)))
    }

    /// The table is consistent: the subjects are in ascending order, no
    /// row is there twice, every row is for a subject of the term, and the
    /// rows are no more than the table takes.
    pub open spec fn wf(self) -> bool {
        &&& strictly_increasing(self.subject_ids())
        &&& self.rows.no_duplicates()
        &&& self.rows.len() <= self.capacity <= MAX_ROWS
        &&& forall|k: int| 0 <= k < self.rows.len() ==> self.knows((#[trigger] self.rows[k]).1)
    }

    /// The seats left of those subjects of `ids` that are of the term, in
    /// the order of `ids`.
    pub open spec fn counts_for(self, ids: Seq<SubjectId>) -> Seq<(SubjectId, i64)>
        decreases ids.len(),
    {
        if ids.len() == 0 {
            Seq::empty()
        } else if self.knows(ids.last()) {
            self.counts_for(ids.drop_last()).push((ids.last(), self.remaining(ids.last()) as i64))
        } else {
            self.counts_for(ids.drop_last())
        }
    }

    /// The seats left of every subject of the term, in ascending order of
    /// the subjects.
    pub open spec fn snapshot(self) -> Seq<(SubjectId, i64)> {
        self.counts_for(self.subject_ids())
    }

    /// The seats left of each subject of the term.
    pub open spec fn table(self) -> Map<SubjectId, i64> {
        Map::new(|id: SubjectId| self.knows(id), |id: SubjectId| self.remaining(id) as i64)
    }

    /// The table after the rows of `student` were replaced by one row for
    /// each subject of `target`.
    pub open spec fn replaced(self, student: UserId, target: Set<SubjectId>) -> LedgerView {
        LedgerView {
            rows: without(self.rows, student) + rows_for(student, ascending(target)),
            ..self
        }
    }

    /// The subjects whose registration of `student` changes when `target`
    /// becomes what the student is registered for.
    pub open spec fn diff(self, student: UserId, target: Set<SubjectId>) -> Set<SubjectId> {
        symmetric_difference(target, self.stored(student))
    }

    /// The subjects of `target` that are not of the term.
    pub open spec fn unknown(self, target: Set<SubjectId>) -> Set<SubjectId> {
        target.filter(|id: SubjectId| !self.knows(id))
    }

    /// Why the registration of `target` for `student` is refused, if it
    /// is: nobody is asking; or a subject of `target` is not of the term,
    /// the least such being named; or the registration changes something
    /// and the table cannot take the rows.
    pub open spec fn refusal(self, student: Option<UserId>, target: Set<SubjectId>) -> Option<
        RegistrationError,
    > {
        match student {
            None => Some(RegistrationError::Unauthorized),
            Some(u) => {
                let unknown = self.unknown(target);
                if unknown != Set::<SubjectId>::empty() {
                    Some(RegistrationError::UnknownSubject(ascending(unknown)[0]))
                } else if self.diff(u, target) != Set::<SubjectId>::empty() && without(
                    self.rows,
                    u,
                ).len() + target.len() > self.capacity {
                    Some(RegistrationError::CommitFailed)
                } else {
                    None
                }
            },
        }
    }

    /// The table after `student` asked to be registered for exactly
    /// `target`: unchanged if the registration is refused or changes
    /// nothing, else with the student's rows replaced.
    pub open spec fn registered(self, student: Option<UserId>, target: Set<SubjectId>) -> LedgerView {
        match student {
            Some(u) if self.refusal(student, target) is None && self.diff(u, target)
                != Set::<SubjectId>::empty() => self.replaced(u, target),
            _ => self,
        }
    }

    /// What is published after `student` asked to be registered for
    /// exactly `target`: nothing if the registration is refused or changes
    /// nothing, else the seats now left of the subjects whose registration
    /// changed, in ascending order.
    pub open spec fn published(self, student: Option<UserId>, target: Set<SubjectId>) -> Seq<
        (SubjectId, i64),
    > {
        match student {
            Some(u) if self.refusal(student, target) is None => self.registered(
                student,
                target,
            ).counts_for(ascending(self.diff(u, target))),
            _ => Seq::empty(),
        }
    }
}

/// `table` with the seat counts of `msg` written over it, one after the
/// other.
pub open spec fn overlay(table: Map<SubjectId, i64>, msg: Seq<(SubjectId, i64)>) -> Map<
    SubjectId,
    i64,
>
    decreases msg.len(),
{
    if msg.len() == 0 {
        table
    } else {
        overlay(table, msg.drop_last()).insert(msg.last().0, msg.last().1)
    }
}

pub proof fn lemma_taken_in_add(
    a: Seq<(UserId, SubjectId)>,
    b: Seq<(UserId, SubjectId)>,
    id: SubjectId,
)
    ensures
        taken_in(a + b, id) == taken_in(a, id) + taken_in(b, id),
    decreases b.len(),
{
    if b.len() == 0 {
        assert(a + b =~= a);
    } else {
        assert((a + b).drop_last() =~= a + b.drop_last());
        lemma_taken_in_add(a, b.drop_last(), id);
    }
}

/// The rows that are left when those of a student are taken out.
pub proof fn lemma_without(rows: Seq<(UserId, SubjectId)>, student: UserId)
    ensures
        without(rows, student).len() <= rows.len(),
        forall|r: (UserId, SubjectId)|
            #![trigger without(rows, student).contains(r)]
            #![trigger rows.contains(r)]
            without(rows, student).contains(r) <==> (rows.contains(r) && r.0 != student),
        rows.no_duplicates() ==> without(rows, student).no_duplicates(),
    decreases rows.len(),
{
    let w = without(rows, student);
    if rows.len() > 0 {
        let init = rows.drop_last();
        let wi = without(init, student);
        lemma_without(init, student);
        assert forall|r: (UserId, SubjectId)|
            #![trigger w.contains(r)]
            #![trigger rows.contains(r)]
            w.contains(r) <==> (rows.contains(r) && r.0 != student) by {
            assert(wi.contains(r) <==> (init.contains(r) && r.0 != student));
            if w.contains(r) {
                let k = choose|k: int| 0 <= k < w.len() && w[k] == r;
                if k < wi.len() {
                    assert(wi[k] == r);
                    assert(wi.contains(r));
                    assert(init.contains(r));
                    let j = choose|j: int| 0 <= j < init.len() && init[j] == r;
                    assert(rows[j] == r);
                } else {
                    assert(rows[rows.len() - 1] == r);
                }
            }
            if rows.contains(r) && r.0 != student {
                let j = choose|j: int| 0 <= j < rows.len() && rows[j] == r;
                if j < init.len() {
                    assert(init[j] == r);
                    assert(init.contains(r));
                    assert(wi.contains(r));
                    let k = choose|k: int| 0 <= k < wi.len() && wi[k] == r;
                    assert(w[k] == r);
                } else {
                    assert(w[w.len() - 1] == r);
                }
            }
        }
        if rows.no_duplicates() {
            assert(init.no_duplicates());
            if rows.last().0 != student {
                assert forall|i: int, j: int| 0 <= i < j < w.len() implies w[i] != w[j] by {
                    if j == w.len() - 1 {
                        assert(wi[i] == w[i]);
                        assert(wi.contains(w[i]));
                        assert(wi.contains(w[i]) <==> (init.contains(w[i]) && w[i].0 != student));
                        assert(init.contains(w[i]));
                        let k = choose|k: int| 0 <= k < init.len() && init[k] == w[i];
                        assert(rows[k] == w[i]);
                    } else {
                        assert(wi[i] == w[i] && wi[j] == w[j]);
                    }
                }
            }
        }
    }
}

/// Of the rows for a subject, those of one student are one if the student
/// is registered for it and none if not.
pub proof fn lemma_taken_without(rows: Seq<(UserId, SubjectId)>, student: UserId, id: SubjectId)
    requires
        rows.no_duplicates(),
    ensures
        taken_in(rows, id) == taken_in(without(rows, student), id) + (if rows.contains(
            (student, id),
        ) {
            1nat
        } else {
            0nat
        }),
    decreases rows.len(),
{
    if rows.len() > 0 {
        let init = rows.drop_last();
        let last = rows.last();
        assert(init.no_duplicates());
        lemma_taken_without(init, student, id);
        if init.contains((student, id)) {
            let k = choose|k: int| 0 <= k < init.len() && init[k] == (student, id);
            assert(rows[k] == (student, id));
            assert(rows.contains((student, id)));
            assert(last != (student, id));
        } else if last == (student, id) {
            assert(rows[rows.len() - 1] == (student, id));
        } else {
            if rows.contains((student, id)) {
                let k = choose|k: int| 0 <= k < rows.len() && rows[k] == (student, id);
                assert(init[k] == (student, id));
            }
        }
        if last.0 != student {
            assert(without(rows, student).drop_last() =~= without(init, student));
        }
    }
}

/// Of rows made for a student from a list of subjects without repeats,
/// one is for each subject of the list and none for any other.
pub proof fn lemma_taken_rows_for(student: UserId, ids: Seq<SubjectId>, id: SubjectId)
    requires
        ids.no_duplicates(),
    ensures
        taken_in(rows_for(student, ids), id) == (if ids.contains(id) {
            1nat
        } else {
            0nat
        }),
    decreases ids.len(),
{
    let rows = rows_for(student, ids);
    if ids.len() > 0 {
        let init = ids.drop_last();
        assert(rows.drop_last() =~= rows_for(student, init));
        assert(init.no_duplicates());
        lemma_taken_rows_for(student, init, id);
        assert(rows.last().1 == ids.last());
        if init.contains(id) {
            let k = choose|k: int| 0 <= k < init.len() && init[k] == id;
            assert(ids[k] == id);
            assert(ids.last() != id);
        } else if ids.last() == id {
            assert(ids[ids.len() - 1] == id);
        } else {
            if ids.contains(id) {
                let k = choose|k: int| 0 <= k < ids.len() && ids[k] == id;
                assert(init[k] == id);
            }
        }
    }
}

/// An ascending sequence has no repeats.
pub proof fn lemma_increasing_no_duplicates(q: Seq<SubjectId>)
    requires
        strictly_increasing(q),
    ensures
        q.no_duplicates(),
{
    assert forall|i: int, j: int| 0 <= i < q.len() && 0 <= j < q.len() && i != j implies q[i]
        != q[j] by {
        if i < j {
            assert(q[i].0 < q[j].0);
        } else {
            assert(q[j].0 < q[i].0);
        }
    }
}

/// What replacing a student's rows does: the student is registered for
/// exactly the target, every other student for what they were; a subject
/// gains a registration if it is new to the student, loses one if the
/// student gives it up, and keeps its number otherwise.
pub proof fn lemma_replaced(l: LedgerView, student: UserId, target: Seq<SubjectId>)
    requires
        l.wf(),
        strictly_increasing(target),
    ensures
        l.replaced(student, target.to_set()).stored(student) == target.to_set(),
        forall|other: UserId|
            other != student ==> #[trigger] l.replaced(student, target.to_set()).stored(other)
                == l.stored(other),
        forall|id: SubjectId| #[trigger]
            l.replaced(student, target.to_set()).taken(id) == l.taken(id) + (if target.contains(
                id,
            ) {
                1int
            } else {
                0int
            }) - (if l.stored(student).contains(id) {
                1int
            } else {
                0int
            }),
        l.replaced(student, target.to_set()).rows.no_duplicates(),
        l.replaced(student, target.to_set()).rows.len() == without(l.rows, student).len()
            + target.len(),
        forall|r: (UserId, SubjectId)|
            l.replaced(student, target.to_set()).rows.contains(r) <==> (if r.0 == student {
                target.contains(r.1)
            } else {
                l.rows.contains(r)
            }),
{
    lemma_ascending(target);
    lemma_increasing_no_duplicates(target);
    let l2 = l.replaced(student, target.to_set());
    let kept = without(l.rows, student);
    let fresh = rows_for(student, target);
    assert(l2.rows == kept + fresh);
    lemma_without(l.rows, student);
    assert forall|r: (UserId, SubjectId)| l2.rows.contains(r) <==> (if r.0 == student {
        target.contains(r.1)
    } else {
        l.rows.contains(r)
    }) by {
        assert(kept.contains(r) <==> (l.rows.contains(r) && r.0 != student));
        if l2.rows.contains(r) {
            let k = choose|k: int| 0 <= k < l2.rows.len() && l2.rows[k] == r;
            if k < kept.len() {
                assert(kept[k] == r);
                assert(kept.contains(r));
            } else {
                assert(fresh[k - kept.len()] == r);
                assert(target[k - kept.len()] == r.1);
            }
        }
        if r.0 == student && target.contains(r.1) {
            let k = choose|k: int| 0 <= k < target.len() && target[k] == r.1;
            assert(fresh[k] == r);
            assert(l2.rows[kept.len() + k] == r);
        }
        if r.0 != student && l.rows.contains(r) {
            assert(kept.contains(r));
            let k = choose|k: int| 0 <= k < kept.len() && kept[k] == r;
            assert(l2.rows[k] == r);
        }
    }
    assert(l2.stored(student) =~= target.to_set());
    assert forall|other: UserId| other != student implies #[trigger] l2.stored(other) == l.stored(
        other,
    ) by {
        assert(l2.stored(other) =~= l.stored(other));
    }
    assert forall|id: SubjectId| #[trigger]
        l2.taken(id) == l.taken(id) + (if target.contains(id) {
            1int
        } else {
            0int
        }) - (if l.stored(student).contains(id) {
            1int
        } else {
            0int
        }) by {
        lemma_taken_in_add(kept, fresh, id);
        lemma_taken_without(l.rows, student, id);
        lemma_taken_rows_for(student, target, id);
    }
    assert forall|i: int, j: int| 0 <= i < j < l2.rows.len() implies l2.rows[i] != l2.rows[j] by {
        if j < kept.len() {
            assert(kept[i] == l2.rows[i] && kept[j] == l2.rows[j]);
        } else if i >= kept.len() {
            assert(fresh[i - kept.len()] == l2.rows[i]);
            assert(fresh[j - kept.len()] == l2.rows[j]);
            assert(target[i - kept.len()] != target[j - kept.len()]);
        } else {
            assert(kept[i] == l2.rows[i]);
            assert(kept.contains(l2.rows[i]));
            assert(kept.contains(l2.rows[i]) <==> (l.rows.contains(l2.rows[i]) && l2.rows[i].0
                != student));
            assert(fresh[j - kept.len()] == l2.rows[j]);
        }
    }
}

/// The rows for one subject are no more than the rows.
pub proof fn lemma_taken_in_bound(rows: Seq<(UserId, SubjectId)>, id: SubjectId)
    ensures
        taken_in(rows, id) <= rows.len(),
    decreases rows.len(),
{
    if rows.len() > 0 {
        lemma_taken_in_bound(rows.drop_last(), id);
    }
}

/// An ascending sequence with one more member, put where the order wants
/// it.
proof fn lemma_insert_ascending(q: Seq<SubjectId>, x: SubjectId) -> (r: Seq<SubjectId>)
    requires
        strictly_increasing(q),
        !q.contains(x),
    ensures
        strictly_increasing(r),
        r.to_set() == q.to_set().insert(x),
    decreases q.len(),
{
    if q.len() == 0 {
        let r = seq![x];
        assert forall|y: SubjectId| r.to_set().contains(y) <==> q.to_set().insert(x).contains(
            y,
        ) by {
            if r.contains(y) {
                let k = choose|k: int| 0 <= k < r.len() && r[k] == y;
            }
            if y == x {
                assert(r[0] == y);
            }
            if q.contains(y) {
                let k = choose|k: int| 0 <= k < q.len() && q[k] == y;
            }
        }
        assert(r.to_set() =~= q.to_set().insert(x));
        r
    } else if q.last().0 < x.0 {
        let r = q.push(x);
        assert forall|y: SubjectId| r.to_set().contains(y) <==> q.to_set().insert(x).contains(
            y,
        ) by {
            if r.contains(y) {
                let k = choose|k: int| 0 <= k < r.len() && r[k] == y;
                if k < q.len() {
                    assert(q[k] == y);
                }
            }
            if y == x {
                assert(r[q.len() as int] == y);
            }
            if q.contains(y) {
                let k = choose|k: int| 0 <= k < q.len() && q[k] == y;
                assert(r[k] == y);
            }
        }
        assert(r.to_set() =~= q.to_set().insert(x));
        assert forall|i: int, j: int| 0 <= i < j < r.len() implies r[i].0 < r[j].0 by {
            if j == q.len() {
                if i < q.len() - 1 {
                    assert(q[i].0 < q[q.len() - 1].0);
                }
            }
        }
        r
    } else {
        let init = q.drop_last();
        let last = q.last();
        assert(q[q.len() - 1] == last);
        assert(q.contains(last));
        assert(last != x);
        if init.contains(x) {
            let k = choose|k: int| 0 <= k < init.len() && init[k] == x;
            assert(q[k] == x);
        }
        let r0 = lemma_insert_ascending(init, x);
        let r = r0.push(last);
        assert forall|i: int, j: int| 0 <= i < j < r.len() implies r[i].0 < r[j].0 by {
            if j == r0.len() {
                assert(r0.contains(r0[i]));
                assert(r0.to_set().contains(r0[i]));
                if r0[i] != x {
                    assert(init.to_set().contains(r0[i]));
                    assert(init.contains(r0[i]));
                    let k = choose|k: int| 0 <= k < init.len() && init[k] == r0[i];
                    assert(q[k].0 < q[q.len() - 1].0);
                }
            }
        }
        assert forall|y: SubjectId| r.to_set().contains(y) <==> q.to_set().insert(x).contains(
            y,
        ) by {
            if r.contains(y) {
                let k = choose|k: int| 0 <= k < r.len() && r[k] == y;
                if k < r0.len() {
                    assert(r0[k] == y);
                    assert(r0.contains(y));
                    assert(r0.to_set().contains(y));
                    if y != x {
                        assert(init.to_set().contains(y));
                        assert(init.contains(y));
                        let kk = choose|kk: int| 0 <= kk < init.len() && init[kk] == y;
                        assert(q[kk] == y);
                    }
                }
            }
            if y == x {
                assert(r0.to_set().contains(x));
                assert(r0.contains(x));
                let k = choose|k: int| 0 <= k < r0.len() && r0[k] == x;
                assert(r[k] == x);
            }
            if q.contains(y) {
                let k = choose|k: int| 0 <= k < q.len() && q[k] == y;
                if k < init.len() {
                    assert(init[k] == y);
                    assert(init.contains(y));
                    assert(init.to_set().contains(y));
                    assert(r0.to_set().contains(y));
                    assert(r0.contains(y));
                    let kk = choose|kk: int| 0 <= kk < r0.len() && r0[kk] == y;
                    assert(r[kk] == y);
                } else {
                    assert(r[r0.len() as int] == y);
                }
            }
        }
        assert(r.to_set() =~= q.to_set().insert(x));
        r
    }
}

/// The members of a finite set can be put in ascending order.
pub proof fn lemma_ascending_exists(s: Set<SubjectId>)
    requires
        s.finite(),
    ensures
        strictly_increasing(ascending(s)),
        ascending(s).to_set() == s,
    decreases s.len(),
{
    if s.len() == 0 {
        let q = Seq::<SubjectId>::empty();
        assert(s =~= Set::empty());
        assert(q.to_set() =~= s);
        assert(strictly_increasing(q) && q.to_set() == s);
    } else {
        let x = s.choose();
        let rest = s.remove(x);
        lemma_ascending_exists(rest);
        let q0 = ascending(rest);
        assert(!q0.to_set().contains(x));
        let q = lemma_insert_ascending(q0, x);
        assert(rest.insert(x) =~= s);
        assert(strictly_increasing(q) && q.to_set() == s);
    }
}

/// The subjects that a student is registered for are finitely many.
pub proof fn lemma_stored_finite(l: LedgerView, student: UserId)
    ensures
        l.stored(student).finite(),
{
    let rows = l.rows;
    let all = rows.map_values(|r: (UserId, SubjectId)| r.1).to_set();
    vstd::seq_lib::seq_to_set_is_finite(rows.map_values(|r: (UserId, SubjectId)| r.1));
    assert forall|id: SubjectId| l.stored(student).contains(id) implies all.contains(id) by {
        let k = choose|k: int| 0 <= k < rows.len() && rows[k] == (student, id);
        assert(rows.map_values(|r: (UserId, SubjectId)| r.1)[k] == id);
    }
    vstd::set_lib::lemma_len_subset(l.stored(student), all);
}

/// Writing the seats left of some subjects over a table gives the table
/// that holds, for each of those that is of the term, the seats left, and
/// for every other subject what it held.
pub proof fn lemma_overlay_counts(l: LedgerView, table: Map<SubjectId, i64>, ids: Seq<SubjectId>)
    ensures
        overlay(table, l.counts_for(ids)) == Map::new(
            |id: SubjectId| table.contains_key(id) || (ids.contains(id) && l.knows(id)),
            |id: SubjectId|
                if ids.contains(id) && l.knows(id) {
                    l.remaining(id) as i64
                } else {
                    table[id]
                },
        ),
        forall|k: int|
            0 <= k < l.counts_for(ids).len() ==> {
                &&& ids.contains((#[trigger] l.counts_for(ids)[k]).0)
                &&& l.knows(l.counts_for(ids)[k].0)
                &&& l.counts_for(ids)[k].1 == l.remaining(l.counts_for(ids)[k].0) as i64
            },
        forall|id: SubjectId|
            ids.contains(id) && l.knows(id) ==> exists|k: int|
                0 <= k < l.counts_for(ids).len() && (#[trigger] l.counts_for(ids)[k]).0 == id,
    decreases ids.len(),
{
    let expected = Map::new(
        |id: SubjectId| table.contains_key(id) || (ids.contains(id) && l.knows(id)),
        |id: SubjectId|
            if ids.contains(id) && l.knows(id) {
                l.remaining(id) as i64
            } else {
                table[id]
            },
    );
    let c = l.counts_for(ids);
    if ids.len() == 0 {
        assert(overlay(table, c) =~= expected);
    } else {
        let init = ids.drop_last();
        let last = ids.last();
        let c0 = l.counts_for(init);
        lemma_overlay_counts(l, table, init);
        assert(ids[ids.len() - 1] == last);
        assert forall|id: SubjectId| ids.contains(id) <==> (init.contains(id) || id == last) by {
            if ids.contains(id) {
                let k = choose|k: int| 0 <= k < ids.len() && ids[k] == id;
                if k < init.len() {
                    assert(init[k] == id);
                }
            }
            if init.contains(id) {
                let k = choose|k: int| 0 <= k < init.len() && init[k] == id;
                assert(ids[k] == id);
            }
        }
        if l.knows(last) {
            assert(c.drop_last() =~= c0);
        }
        assert(overlay(table, c) =~= expected);
        assert forall|k: int| 0 <= k < c.len() implies {
            &&& ids.contains((#[trigger] c[k]).0)
            &&& l.knows(c[k].0)
            &&& c[k].1 == l.remaining(c[k].0) as i64
        } by {
            if k < c0.len() {
                assert(c[k] == c0[k]);
            }
        }
        assert forall|id: SubjectId| ids.contains(id) && l.knows(id) implies exists|k: int|
            0 <= k < c.len() && (#[trigger] c[k]).0 == id by {
            if init.contains(id) {
                let k = choose|k: int| 0 <= k < c0.len() && (#[trigger] c0[k]).0 == id;
                assert(c[k].0 == id);
            } else {
                assert(c[c.len() - 1].0 == id);
            }
        }
    }
}

/// A client that receives the snapshot knows, of every subject of the
/// term, the seats that are left, whatever it knew before.
pub proof fn lemma_snapshot_is_table(l: LedgerView, table: Map<SubjectId, i64>)
    ensures
        overlay(Map::empty(), l.snapshot()) == l.table(),
        forall|id: SubjectId|
            l.knows(id) ==> #[trigger] overlay(table, l.snapshot())[id] == l.table()[id],
{
    lemma_overlay_counts(l, Map::empty(), l.subject_ids());
    lemma_overlay_counts(l, table, l.subject_ids());
    assert(overlay(Map::empty(), l.snapshot()) =~= l.table());
}

/// What a registration that is not refused does: the student is
/// registered for exactly the target and every other student for what
/// they were; the seats left change for exactly the subjects that the
/// student takes up or gives up, by one; and exactly those subjects are
/// published, each with the seats now left.
pub proof fn lemma_registration(l: LedgerView, student: UserId, target: Set<SubjectId>)
    requires
        l.wf(),
        target.finite(),
        l.refusal(Some(student), target) is None,
    ensures
        l.registered(Some(student), target).wf(),
        l.registered(Some(student), target).subjects == l.subjects,
        l.registered(Some(student), target).capacity == l.capacity,
        l.registered(Some(student), target).stored(student) == target,
        forall|other: UserId|
            other != student ==> #[trigger] l.registered(Some(student), target).stored(other)
                == l.stored(other),
        forall|id: SubjectId| #[trigger]
            l.registered(Some(student), target).remaining(id) == l.remaining(id) - (if target.contains(
                id,
            ) && !l.stored(student).contains(id) {
                1int
            } else {
                0int
            }) + (if l.stored(student).contains(id) && !target.contains(id) {
                1int
            } else {
                0int
            }),
        forall|id: SubjectId|
            l.diff(student, target).contains(id) <==> exists|k: int|
                0 <= k < l.published(Some(student), target).len() && (#[trigger] l.published(
                    Some(student),
                    target,
                )[k]).0 == id,
        forall|k: int|
            0 <= k < l.published(Some(student), target).len() ==> (#[trigger] l.published(
                Some(student),
                target,
            )[k]).1 == l.registered(Some(student), target).remaining(
                l.published(Some(student), target)[k].0,
            ) as i64,
{
    let l2 = l.registered(Some(student), target);
    let diff = l.diff(student, target);
    let msg = l.published(Some(student), target);
    lemma_stored_finite(l, student);
    assert(diff.finite());
    lemma_ascending_exists(diff);
    lemma_ascending_exists(target);
    let t = ascending(target);
    let unknown = l.unknown(target);
    assert(unknown == Set::<SubjectId>::empty());
    assert forall|id: SubjectId| target.contains(id) implies l.knows(id) by {
        if !l.knows(id) {
            assert(unknown.contains(id));
        }
    }
    assert forall|id: SubjectId| l.stored(student).contains(id) implies l.knows(id) by {
        let k = choose|k: int| 0 <= k < l.rows.len() && l.rows[k] == (student, id);
        assert(l.knows(l.rows[k].1));
    }
    if diff == Set::<SubjectId>::empty() {
        assert(l2 == l);
        assert(ascending(diff) =~= Seq::empty()) by {
            if ascending(diff).len() > 0 {
                assert(ascending(diff).contains(ascending(diff)[0]));
                assert(ascending(diff).to_set().contains(ascending(diff)[0]));
            }
        }
        assert(target =~= l.stored(student)) by {
            assert forall|id: SubjectId| target.contains(id) <==> l.stored(student).contains(
                id,
            ) by {
                if target.contains(id) != l.stored(student).contains(id) {
                    assert(diff.contains(id));
                }
            }
        }
        assert(msg =~= Seq::empty());
    } else {
        lemma_replaced(l, student, t);
        t.unique_seq_to_set();
        lemma_increasing_no_duplicates(t);
        assert(l2.rows.len() <= l2.capacity);
        assert forall|k: int| 0 <= k < l2.rows.len() implies l2.knows((#[trigger] l2.rows[k]).1) by {
            let r = l2.rows[k];
            assert(l2.rows.contains(r));
            if r.0 == student {
                assert(t.contains(r.1));
                assert(t.to_set().contains(r.1));
            } else {
                assert(l.rows.contains(r));
                let j = choose|j: int| 0 <= j < l.rows.len() && l.rows[j] == r;
                assert(l.knows(l.rows[j].1));
            }
        }
        assert forall|id: SubjectId| #[trigger]
            l2.remaining(id) == l.remaining(id) - (if target.contains(id) && !l.stored(
                student,
            ).contains(id) {
                1int
            } else {
                0int
            }) + (if l.stored(student).contains(id) && !target.contains(id) {
                1int
            } else {
                0int
            }) by {
            assert(l2.taken(id) == l.taken(id) + (if t.contains(id) {
                1int
            } else {
                0int
            }) - (if l.stored(student).contains(id) {
                1int
            } else {
                0int
            }));
            assert(t.contains(id) == t.to_set().contains(id));
        }
    }
    lemma_overlay_counts(l2, Map::empty(), ascending(diff));
    assert forall|id: SubjectId|
        diff.contains(id) <==> exists|k: int|
            0 <= k < msg.len() && (#[trigger] msg[k]).0 == id by {
        if diff.contains(id) {
            assert(ascending(diff).to_set().contains(id));
            assert(ascending(diff).contains(id));
            assert(l2.knows(id));
        }
        if exists|k: int| 0 <= k < msg.len() && (#[trigger] msg[k]).0 == id {
            let k = choose|k: int| 0 <= k < msg.len() && (#[trigger] msg[k]).0 == id;
            assert(ascending(diff).contains(msg[k].0));
            assert(ascending(diff).to_set().contains(id));
        }
    }
}

/// A client that holds the table of seats left and receives what a
/// registration publishes holds the table of seats left after it.
pub proof fn lemma_published_keeps_table(
    l: LedgerView,
    student: Option<UserId>,
    target: Set<SubjectId>,
)
    requires
        l.wf(),
        target.finite(),
    ensures
        l.registered(student, target).wf(),
        overlay(l.table(), l.published(student, target)) == l.registered(student, target).table(),
{
    let l2 = l.registered(student, target);
    let msg = l.published(student, target);
    if student is Some && l.refusal(student, target) is None {
        let u = student->0;
        let diff = l.diff(u, target);
        lemma_registration(l, u, target);
        lemma_stored_finite(l, u);
        lemma_ascending_exists(diff);
        lemma_overlay_counts(l2, l.table(), ascending(diff));
        assert forall|id: SubjectId| #[trigger] ascending(diff).contains(id) <==> diff.contains(
            id,
        ) by {
            assert(ascending(diff).to_set().contains(id) <==> diff.contains(id));
        }
        assert(overlay(l.table(), msg) =~= l2.table());
    } else {
        assert(msg =~= Seq::empty());
        assert(l2 == l);
    }
}

/// The table after a run of registrations, each asked by a student, or by
/// nobody, for a target.
pub open spec fn ledger_after(l: LedgerView, asked: Seq<(Option<UserId>, Set<SubjectId>)>) -> LedgerView
    decreases asked.len(),
{
    if asked.len() == 0 {
        l
    } else {
        ledger_after(l, asked.drop_last()).registered(asked.last().0, asked.last().1)
    }
}

/// What a client holds that took the snapshot of `l` and then received
/// what each registration of the run published.
pub open spec fn client_after(l: LedgerView, asked: Seq<(Option<UserId>, Set<SubjectId>)>) -> Map<
    SubjectId,
    i64,
>
    decreases asked.len(),
{
    if asked.len() == 0 {
        overlay(Map::empty(), l.snapshot())
    } else {
        overlay(
            client_after(l, asked.drop_last()),
            ledger_after(l, asked.drop_last()).published(asked.last().0, asked.last().1),
        )
    }
}

/// A client that stayed connected through a run of registrations holds
/// the same seat counts as a client that connects after the run and takes
/// the snapshot, however many publications that one missed.
pub proof fn lemma_resync(l: LedgerView, asked: Seq<(Option<UserId>, Set<SubjectId>)>)
    requires
        l.wf(),
        forall|k: int| 0 <= k < asked.len() ==> (#[trigger] asked[k]).1.finite(),
    ensures
        ledger_after(l, asked).wf(),
        client_after(l, asked) == overlay(Map::empty(), ledger_after(l, asked).snapshot()),
        client_after(l, asked) == ledger_after(l, asked).table(),
    decreases asked.len(),
{
    if asked.len() == 0 {
        lemma_snapshot_is_table(l, Map::empty());
    } else {
        let init = asked.drop_last();
        assert forall|k: int| 0 <= k < init.len() implies (#[trigger] init[k]).1.finite() by {
            assert(init[k] == asked[k]);
        }
        lemma_resync(l, init);
        let before = ledger_after(l, init);
        assert(asked[asked.len() - 1] == asked.last());
        lemma_published_keeps_table(before, asked.last().0, asked.last().1);
        lemma_snapshot_is_table(ledger_after(l, asked), Map::empty());
    }
}

} // verus!
