//! The weekly grid of selected subjects: for each day and period, the
//! subjects that meet then. Two subjects in one cell collide.

use crate::class::{meetings_cover, meetings_fit_grid, Class, GRID_DAYS, GRID_PERIODS};
use crate::registration::SubjectId;
use vstd::prelude::*;

verus! {

/// What a grid holds: for each of the 6 days, for each of the 12 periods,
/// the set of subjects in that cell.
pub type GridView = Seq<Seq<Set<SubjectId>>>;

/// `d` and `p` name a cell of the grid.
pub open spec fn in_grid(d: int, p: int) -> bool {
    0 <= d < GRID_DAYS && 0 <= p < GRID_PERIODS
}

/// The grid has its 6 rows of 12 cells.
pub open spec fn grid_shaped(g: GridView) -> bool {
    &&& g.len() == GRID_DAYS
    &&& forall|d: int| 0 <= d < GRID_DAYS ==> (#[trigger] g[d]).len() == GRID_PERIODS
}

/// The grid with no subject in any cell.
pub open spec fn empty_grid() -> GridView {
    Seq::new(GRID_DAYS as nat, |d: int| Seq::new(GRID_PERIODS as nat, |p: int| Set::empty()))
}

/// `g` with `id` added to every cell that a meeting of `meetings` takes.
pub open spec fn occupied(g: GridView, id: SubjectId, meetings: Seq<Class>) -> GridView {
    Seq::new(
        GRID_DAYS as nat,
        |d: int|
            Seq::new(
                GRID_PERIODS as nat,
                |p: int|
                    if meetings_cover(meetings, d, p) {
                        g[d][p].insert(id)
                    } else {
                        g[d][p]
                    },
            ),
    )
}

/// `g` with `id` taken out of every cell that a meeting of `meetings` takes.
pub open spec fn vacated(g: GridView, id: SubjectId, meetings: Seq<Class>) -> GridView {
    Seq::new(
        GRID_DAYS as nat,
        |d: int|
            Seq::new(
                GRID_PERIODS as nat,
                |p: int|
                    if meetings_cover(meetings, d, p) {
                        g[d][p].remove(id)
                    } else {
                        g[d][p]
                    },
            ),
    )
}

/// The cell holds `id` together with some other subject.
pub open spec fn shared_cell(cell: Set<SubjectId>, id: SubjectId) -> bool {
    cell.contains(id) && exists|other: SubjectId| other != id && cell.contains(other)
}

/// In some cell that a meeting of `meetings` takes, `id` sits together with
/// another subject.
pub open spec fn collides(g: GridView, id: SubjectId, meetings: Seq<Class>) -> bool {
    exists|d: int, p: int|
        in_grid(d, p) && meetings_cover(meetings, d, p) && shared_cell(#[trigger] g[d][p], id)
}

/// Position of `id` in `cell`, if it is there.
fn position(cell: &Vec<SubjectId>, id: SubjectId) -> (r: Option<usize>)
    ensures
        match r {
            Some(i) => i < cell.len() && cell[i as int] == id,
            None => !cell@.contains(id),
        },
{
    let mut i: usize = 0;
    while i < cell.len()
        invariant
            i <= cell.len(),
            forall|j: int| 0 <= j < i ==> cell[j] != id,
        decreases cell.len() - i,
    {
        if cell[i] == id {
            return Some(i);
        }
        i += 1;
    }
    None
}

proof fn lemma_push_absent(s: Seq<SubjectId>, id: SubjectId)
    requires
        s.no_duplicates(),
        !s.contains(id),
    ensures
        s.push(id).no_duplicates(),
        s.push(id).to_set() == s.to_set().insert(id),
{
    let t = s.push(id);
    assert forall|x: SubjectId| t.to_set().contains(x) <==> s.to_set().insert(id).contains(x) by {
        if t.contains(x) {
            let i = choose|i: int| 0 <= i < t.len() && t[i] == x;
            if i < s.len() {
                assert(s[i] == x);
            }
        }
        if s.contains(x) {
            let i = choose|i: int| 0 <= i < s.len() && s[i] == x;
            assert(t[i] == x);
        }
        if x == id {
            assert(t[s.len() as int] == x);
        }
    }
    assert(t.to_set() =~= s.to_set().insert(id));
}

proof fn lemma_remove_present(s: Seq<SubjectId>, i: int)
    requires
        s.no_duplicates(),
        0 <= i < s.len(),
    ensures
        s.remove(i).no_duplicates(),
        s.remove(i).to_set() == s.to_set().remove(s[i]),
{
    let t = s.remove(i);
    assert forall|x: SubjectId| t.to_set().contains(x) <==> s.to_set().remove(s[i]).contains(x) by {
        if t.contains(x) {
            let j = choose|j: int| 0 <= j < t.len() && t[j] == x;
            if j < i {
                assert(s[j] == x);
            } else {
                assert(s[j + 1] == x);
            }
        }
        if s.contains(x) && x != s[i] {
            let j = choose|j: int| 0 <= j < s.len() && s[j] == x;
            if j < i {
                assert(t[j] == x);
            } else {
                assert(t[j - 1] == x);
            }
        }
    }
    assert(t.to_set() =~= s.to_set().remove(s[i]));
}

/// The weekly grid of the selected subjects.
pub struct ScheduleGrid {
    rows: Vec<Vec<Vec<SubjectId>>>,
}

impl View for ScheduleGrid {
    type V = GridView;

    closed spec fn view(&self) -> GridView {
        Seq::new(
            GRID_DAYS as nat,
            |d: int| Seq::new(GRID_PERIODS as nat, |p: int| self.rows[d][p]@.to_set()),
        )
    }
}

impl ScheduleGrid {
    /// The grid has its 6 rows of 12 cells, and no cell lists a subject twice.
    pub closed spec fn wf(&self) -> bool {
        &&& self.rows.len() == GRID_DAYS
        &&& forall|d: int| 0 <= d < GRID_DAYS ==> (#[trigger] self.rows[d]).len() == GRID_PERIODS
        &&& forall|d: int, p: int|
            in_grid(d, p) ==> (#[trigger] self.rows[d][p])@.no_duplicates()
    }

    /// A well-formed grid has the grid's shape, and its cells are finite.
    pub proof fn lemma_view_shaped(&self)
        requires
            self.wf(),
        ensures
            grid_shaped(self@),
            forall|d: int, p: int| in_grid(d, p) ==> (#[trigger] self@[d][p]).finite(),
    {
        assert forall|d: int, p: int| in_grid(d, p) implies (#[trigger] self@[d][p]).finite() by {
            vstd::seq_lib::seq_to_set_is_finite(self.rows[d][p]@);
        }
    }

    /// An empty grid.
    pub fn new() -> (g: Self)
        ensures
            g.wf(),
            g@ == empty_grid(),
    {
        let mut rows: Vec<Vec<Vec<SubjectId>>> = Vec::new();
        let mut d: usize = 0;
        while d < GRID_DAYS
            invariant
                d <= GRID_DAYS,
                rows.len() == d,
                forall|i: int| 0 <= i < d ==> (#[trigger] rows[i]).len() == GRID_PERIODS,
                forall|i: int, p: int|
                    0 <= i < d && 0 <= p < GRID_PERIODS ==> (#[trigger] rows[i][p])@.len() == 0,
            decreases GRID_DAYS - d,
        {
            let mut row: Vec<Vec<SubjectId>> = Vec::new();
            let mut p: usize = 0;
            while p < GRID_PERIODS
                invariant
                    p <= GRID_PERIODS,
                    row.len() == p,
                    forall|j: int| 0 <= j < p ==> (#[trigger] row[j])@.len() == 0,
                decreases GRID_PERIODS - p,
            {
                row.push(Vec::new());
                p += 1;
            }
            rows.push(row);
            d += 1;
        }
        let g = ScheduleGrid { rows };
        proof {
            assert forall|d: int, p: int| in_grid(d, p) implies g@[d][p] == Set::<
                SubjectId,
            >::empty() by {
                assert(g.rows[d][p]@ =~= Seq::empty());
                assert(g.rows[d][p]@.to_set() =~= Set::empty());
            }
            assert(g@ =~~= empty_grid());
        }
        g
    }

    /// Adds `id` to the cell of day `d` and period `p`.
    fn insert_at(&mut self, d: usize, p: usize, id: SubjectId)
        requires
            old(self).wf(),
            in_grid(d as int, p as int),
        ensures
            final(self).wf(),
            final(self)@ == old(self)@.update(
                d as int,
                old(self)@[d as int].update(p as int, old(self)@[d as int][p as int].insert(id)),
            ),
    {
        let ghost cell0 = self.rows[d as int][p as int]@;
        match position(&self.rows[d][p], id) {
            Some(_) => {
                proof {
                    assert(cell0.to_set().insert(id) =~= cell0.to_set());
                }
            },
            None => {
                proof {
                    lemma_push_absent(cell0, id);
                }
                self.rows[d][p].push(id);
            },
        }
        proof {
            assert(self.rows[d as int][p as int]@.to_set() == cell0.to_set().insert(id));
            assert forall|dd: int, pp: int| in_grid(dd, pp) && !(dd == d && pp == p) implies (
            #[trigger] self.rows[dd][pp]) == old(self).rows[dd][pp] by {}
            assert(final(self)@ =~~= old(self)@.update(
                d as int,
                old(self)@[d as int].update(p as int, old(self)@[d as int][p as int].insert(id)),
            ));
        }
    }

    /// Takes `id` out of the cell of day `d` and period `p`.
    fn remove_at(&mut self, d: usize, p: usize, id: SubjectId)
        requires
            old(self).wf(),
            in_grid(d as int, p as int),
        ensures
            final(self).wf(),
            final(self)@ == old(self)@.update(
                d as int,
                old(self)@[d as int].update(p as int, old(self)@[d as int][p as int].remove(id)),
            ),
    {
        let ghost cell0 = self.rows[d as int][p as int]@;
        match position(&self.rows[d][p], id) {
            Some(i) => {
                proof {
                    lemma_remove_present(cell0, i as int);
                }
                self.rows[d][p].remove(i);
            },
            None => {
                proof {
                    assert(cell0.to_set().remove(id) =~= cell0.to_set());
                }
            },
        }
        proof {
            assert(self.rows[d as int][p as int]@.to_set() == cell0.to_set().remove(id));
            assert forall|dd: int, pp: int| in_grid(dd, pp) && !(dd == d && pp == p) implies (
            #[trigger] self.rows[dd][pp]) == old(self).rows[dd][pp] by {}
            assert(final(self)@ =~~= old(self)@.update(
                d as int,
                old(self)@[d as int].update(p as int, old(self)@[d as int][p as int].remove(id)),
            ));
        }
    }

    /// Adds `id` to every cell that a meeting of `meetings` takes.
    pub fn occupy(&mut self, id: SubjectId, meetings: &Vec<Class>)
        requires
            old(self).wf(),
            meetings_fit_grid(meetings@),
        ensures
            final(self).wf(),
            final(self)@ == occupied(old(self)@, id, meetings@),
    {
        let ghost start = self@;
        proof {
            self.lemma_view_shaped();
            assert(self@ =~~= occupied(start, id, meetings@.take(0)));
        }
        let mut k: usize = 0;
        while k < meetings.len()
            invariant
                k <= meetings.len(),
                self.wf(),
                grid_shaped(start),
                meetings_fit_grid(meetings@),
                self@ == occupied(start, id, meetings@.take(k as int)),
            decreases meetings.len() - k,
        {
            let day = meetings[k].day.index();
            let first = meetings[k].period.0;
            let last = meetings[k].period.1;
            let ghost before = self@;
            let ghost m = meetings@[k as int];
            assert(m.spec_fits_grid());
            let mut p: usize = first;
            while p <= last
                invariant
                    first <= p,
                    p <= last + 1 || p == first,
                    last < GRID_PERIODS,
                    day < GRID_DAYS,
                    self.wf(),
                    grid_shaped(before),
                    grid_shaped(self@),
                    forall|dd: int, pp: int|
                        in_grid(dd, pp) ==> #[trigger] self@[dd][pp] == (if dd == day && first
                            <= pp < p {
                            before[dd][pp].insert(id)
                        } else {
                            before[dd][pp]
                        }),
                decreases last + 1 - p,
            {
                self.insert_at(day, p, id);
                p += 1;
            }
            proof {
                let done = meetings@.take(k as int);
                let next = meetings@.take(k + 1);
                assert forall|dd: int, pp: int| in_grid(dd, pp) implies #[trigger] self@[dd][pp]
                    == occupied(start, id, next)[dd][pp] by {
                    if meetings_cover(next, dd, pp) {
                        let j = choose|j: int| 0 <= j < next.len() && next[j].covers(dd, pp);
                        if j < k {
                            assert(done[j].covers(dd, pp));
                        }
                    }
                    if meetings_cover(done, dd, pp) {
                        let j = choose|j: int| 0 <= j < done.len() && done[j].covers(dd, pp);
                        assert(next[j].covers(dd, pp));
                    }
                    if m.covers(dd, pp) {
                        assert(next[k as int].covers(dd, pp));
                    }
                    assert(m.covers(dd, pp) <==> (dd == day && first <= pp < p));
                    assert(before[dd][pp] == occupied(start, id, done)[dd][pp]);
                }
                assert(self@ =~~= occupied(start, id, next));
            }
            k += 1;
        }
        proof {
            assert(meetings@.take(meetings.len() as int) =~= meetings@);
        }
    }

    /// Takes `id` out of every cell that a meeting of `meetings` takes.
    pub fn vacate(&mut self, id: SubjectId, meetings: &Vec<Class>)
        requires
            old(self).wf(),
            meetings_fit_grid(meetings@),
        ensures
            final(self).wf(),
            final(self)@ == vacated(old(self)@, id, meetings@),
    {
        let ghost start = self@;
        proof {
            self.lemma_view_shaped();
            assert(self@ =~~= vacated(start, id, meetings@.take(0)));
        }
        let mut k: usize = 0;
        while k < meetings.len()
            invariant
                k <= meetings.len(),
                self.wf(),
                grid_shaped(start),
                meetings_fit_grid(meetings@),
                self@ == vacated(start, id, meetings@.take(k as int)),
            decreases meetings.len() - k,
        {
            let day = meetings[k].day.index();
            let first = meetings[k].period.0;
            let last = meetings[k].period.1;
            let ghost before = self@;
            let ghost m = meetings@[k as int];
            assert(m.spec_fits_grid());
            let mut p: usize = first;
            while p <= last
                invariant
                    first <= p,
                    p <= last + 1 || p == first,
                    last < GRID_PERIODS,
                    day < GRID_DAYS,
                    self.wf(),
                    grid_shaped(before),
                    grid_shaped(self@),
                    forall|dd: int, pp: int|
                        in_grid(dd, pp) ==> #[trigger] self@[dd][pp] == (if dd == day && first
                            <= pp < p {
                            before[dd][pp].remove(id)
                        } else {
                            before[dd][pp]
                        }),
                decreases last + 1 - p,
            {
                self.remove_at(day, p, id);
                p += 1;
            }
            proof {
                let done = meetings@.take(k as int);
                let next = meetings@.take(k + 1);
                assert forall|dd: int, pp: int| in_grid(dd, pp) implies #[trigger] self@[dd][pp]
                    == vacated(start, id, next)[dd][pp] by {
                    if meetings_cover(next, dd, pp) {
                        let j = choose|j: int| 0 <= j < next.len() && next[j].covers(dd, pp);
                        if j < k {
                            assert(done[j].covers(dd, pp));
                        }
                    }
                    if meetings_cover(done, dd, pp) {
                        let j = choose|j: int| 0 <= j < done.len() && done[j].covers(dd, pp);
                        assert(next[j].covers(dd, pp));
                    }
                    if m.covers(dd, pp) {
                        assert(next[k as int].covers(dd, pp));
                    }
                    assert(m.covers(dd, pp) <==> (dd == day && first <= pp < p));
                    assert(before[dd][pp] == vacated(start, id, done)[dd][pp]);
                }
                assert(self@ =~~= vacated(start, id, next));
            }
            k += 1;
        }
        proof {
            assert(meetings@.take(meetings.len() as int) =~= meetings@);
        }
    }

    /// Whether the cell of day `d` and period `p` holds `id` together with
    /// another subject.
    fn shared_at(&self, d: usize, p: usize, id: SubjectId) -> (r: bool)
        requires
            self.wf(),
            in_grid(d as int, p as int),
        ensures
            r == shared_cell(self@[d as int][p as int], id),
    {
        let cell = &self.rows[d][p];
        let found = position(cell, id);
        let r = found.is_some() && cell.len() > 1;
        proof {
            let c = cell@;
            if r {
                let other = if c[0] == id {
                    c[1]
                } else {
                    c[0]
                };
                assert(c.contains(other));
                assert(c.to_set().contains(other) && other != id);
            } else if found.is_some() {
                assert forall|other: SubjectId| other != id implies !c.to_set().contains(other) by {
                    if c.contains(other) {
                        let j = choose|j: int| 0 <= j < c.len() && c[j] == other;
                        assert(c[0] == id);
                    }
                }
            }
        }
        r
    }

    /// Whether `id`, in some cell that a meeting of `meetings` takes, sits
    /// together with another subject.
    pub fn has_collision(&self, id: SubjectId, meetings: &Vec<Class>) -> (r: bool)
        requires
            self.wf(),
            meetings_fit_grid(meetings@),
        ensures
            r == collides(self@, id, meetings@),
    {
        let mut k: usize = 0;
        while k < meetings.len()
            invariant
                k <= meetings.len(),
                self.wf(),
                meetings_fit_grid(meetings@),
                !collides(self@, id, meetings@.take(k as int)),
            decreases meetings.len() - k,
        {
            let day = meetings[k].day.index();
            let first = meetings[k].period.0;
            let last = meetings[k].period.1;
            let ghost m = meetings@[k as int];
            assert(m.spec_fits_grid());
            let mut p: usize = first;
            while p <= last
                invariant
                    first <= p,
                    p <= last + 1 || p == first,
                    last < GRID_PERIODS,
                    day < GRID_DAYS,
                    k < meetings.len(),
                    m == meetings@[k as int],
                    day == m.day.spec_index(),
                    first == m.period.0,
                    last == m.period.1,
                    self.wf(),
                    forall|pp: int| first <= pp < p ==> !shared_cell(#[trigger] self@[day as int][pp], id),
                decreases last + 1 - p,
            {
                if self.shared_at(day, p, id) {
                    proof {
                        assert(m.covers(day as int, p as int));
                        assert(in_grid(day as int, p as int));
                        assert(shared_cell(self@[day as int][p as int], id));
                    }
                    return true;
                }
                p += 1;
            }
            proof {
                let done = meetings@.take(k as int);
                let next = meetings@.take(k + 1);
                if collides(self@, id, next) {
                    let (dd, pp) = choose|dd: int, pp: int|
                        in_grid(dd, pp) && meetings_cover(next, dd, pp) && shared_cell(
                            #[trigger] self@[dd][pp],
                            id,
                        );
                    let j = choose|j: int| 0 <= j < next.len() && next[j].covers(dd, pp);
                    if j < k {
                        assert(done[j].covers(dd, pp));
                        assert(meetings_cover(done, dd, pp));
                        assert(false);
                    } else {
                        assert(next[j] == m);
                        assert(false);
                    }
                }
            }
            k += 1;
        }
        proof {
            assert(meetings@.take(meetings.len() as int) =~= meetings@);
        }
        false
    }

    /// The subjects in the cell of day `d` and period `p`, each once.
    pub fn cell(&self, d: usize, p: usize) -> (r: Vec<SubjectId>)
        requires
            self.wf(),
            in_grid(d as int, p as int),
        ensures
            r@.no_duplicates(),
            r@.to_set() == self@[d as int][p as int],
    {
        let cell = &self.rows[d][p];
        let mut r: Vec<SubjectId> = Vec::new();
        let mut i: usize = 0;
        while i < cell.len()
            invariant
                i <= cell.len(),
                r@ == cell@.take(i as int),
            decreases cell.len() - i,
        {
            r.push(cell[i]);
            proof {
                assert(cell@.take(i + 1) =~= cell@.take(i as int).push(cell@[i as int]));
            }
            i += 1;
        }
        proof {
            assert(cell@.take(cell.len() as int) =~= cell@);
        }
        r
    }
}

} // verus!
