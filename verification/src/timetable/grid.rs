//! The timetable as a grid: for each day and period, the class that
//! starts then, or the mark that a class goes on.

use crate::class::{Class, GRID_DAYS, GRID_PERIODS};
use crate::registration::schedule_grid::in_grid;
use vstd::prelude::*;

verus! {

/// One cell of the timetable.
#[derive(PartialEq, Eq, Debug)]
pub enum TimetableCell {
    /// No class.
    Empty,
    /// The class that started in an earlier period goes on.
    Join,
    /// The class that starts in this period.
    Start(Class),
}

impl Clone for TimetableCell {
    fn clone(&self) -> (r: Self)
        ensures
            r == *self,
    {
        match self {
            TimetableCell::Empty => TimetableCell::Empty,
            TimetableCell::Join => TimetableCell::Join,
            TimetableCell::Start(c) => TimetableCell::Start(c.clone()),
        }
    }
}

/// The class can be put into the timetable: its day is one of the grid's,
/// and so are the periods in which it starts and ends.
pub open spec fn placeable(c: Class) -> bool {
    c.day.spec_index() < GRID_DAYS && c.period.0 < GRID_PERIODS && c.period.1 < GRID_PERIODS
}

/// Whether the class can be put into the timetable.
pub fn is_placeable(c: &Class) -> (r: bool)
    ensures
        r == placeable(*c),
{
    c.day.index() < GRID_DAYS && c.period.0 < GRID_PERIODS && c.period.1 < GRID_PERIODS
}

/// A timetable without classes.
pub open spec fn empty_timetable() -> Seq<Seq<TimetableCell>> {
    Seq::new(
        GRID_DAYS as nat,
        |d: int| Seq::new(GRID_PERIODS as nat, |p: int| TimetableCell::Empty),
    )
}

/// The timetable `t` with class `c` written over it: `c` in the period in
/// which it starts, and the mark that it goes on in the periods after
/// that one up to its last.
pub open spec fn placed(t: Seq<Seq<TimetableCell>>, c: Class) -> Seq<Seq<TimetableCell>> {
    Seq::new(
        GRID_DAYS as nat,
        |d: int|
            Seq::new(
                GRID_PERIODS as nat,
                |p: int|
                    if d == c.day.spec_index() && p == c.period.0 {
                        TimetableCell::Start(c)
                    } else if d == c.day.spec_index() && c.period.0 < p <= c.period.1 {
                        TimetableCell::Join
                    } else {
                        t[d][p]
                    },
            ),
    )
}

/// The timetable of the classes: each written over those before it.
pub open spec fn timetable_of(classes: Seq<Class>) -> Seq<Seq<TimetableCell>>
    decreases classes.len(),
{
    if classes.len() == 0 {
        empty_timetable()
    } else {
        placed(timetable_of(classes.drop_last()), classes.last())
    }
}

/// What the rows of a timetable hold.
pub open spec fn rows_view(rows: Seq<Vec<TimetableCell>>) -> Seq<Seq<TimetableCell>> {
    rows.map_values(|r: Vec<TimetableCell>| r@)
}

/// The timetable of the classes, as 6 rows of 12 cells.
pub fn grid_from_classes(classes: Vec<Class>) -> (r: Vec<Vec<TimetableCell>>)
    requires
        forall|k: int| 0 <= k < classes.len() ==> placeable(#[trigger] classes[k]),
    ensures
        rows_view(r@) == timetable_of(classes@),
{
    let mut rows: Vec<Vec<TimetableCell>> = Vec::new();
    let mut d: usize = 0;
    while d < GRID_DAYS
        invariant
            d <= GRID_DAYS,
            rows.len() == d,
            forall|i: int| 0 <= i < d ==> (#[trigger] rows[i]).len() == GRID_PERIODS,
            forall|i: int, p: int|
                0 <= i < d && 0 <= p < GRID_PERIODS ==> (#[trigger] rows[i][p])
                    == TimetableCell::Empty,
        decreases GRID_DAYS - d,
    {
        let mut row: Vec<TimetableCell> = Vec::new();
        let mut p: usize = 0;
        while p < GRID_PERIODS
            invariant
                p <= GRID_PERIODS,
                row.len() == p,
                forall|j: int| 0 <= j < p ==> (#[trigger] row[j]) == TimetableCell::Empty,
            decreases GRID_PERIODS - p,
        {
            row.push(TimetableCell::Empty);
            p += 1;
        }
        rows.push(row);
        d += 1;
    }
    proof {
        assert(classes@.take(0) =~= Seq::empty());
        assert(rows_view(rows@) =~~= empty_timetable());
    }
    let mut k: usize = 0;
    while k < classes.len()
        invariant
            k <= classes.len(),
            forall|j: int| 0 <= j < classes.len() ==> placeable(#[trigger] classes[j]),
            rows.len() == GRID_DAYS,
            forall|i: int| 0 <= i < GRID_DAYS ==> (#[trigger] rows[i]).len() == GRID_PERIODS,
            rows_view(rows@) == timetable_of(classes@.take(k as int)),
        decreases classes.len() - k,
    {
        let c = classes[k].clone();
        let day = c.day.index();
        let first = c.period.0;
        let last = c.period.1;
        let ghost before = rows_view(rows@);
        assert(placeable(classes[k as int]));
        rows[day][first] = TimetableCell::Start(c);
        let mut p: usize = first + 1;
        while p <= last
            invariant
                first < p,
                p <= last + 1 || p == first + 1,
                last < GRID_PERIODS,
                first < GRID_PERIODS,
                day < GRID_DAYS,
                c == classes[k as int],
                day == c.day.spec_index(),
                first == c.period.0,
                last == c.period.1,
                rows.len() == GRID_DAYS,
                forall|i: int| 0 <= i < GRID_DAYS ==> (#[trigger] rows[i]).len() == GRID_PERIODS,
                forall|dd: int, pp: int|
                    in_grid(dd, pp) ==> #[trigger] rows[dd][pp] == (if dd == day && pp == first {
                        TimetableCell::Start(c)
                    } else if dd == day && first < pp < p {
                        TimetableCell::Join
                    } else {
                        before[dd][pp]
                    }),
            decreases last + 1 - p,
        {
            rows[day][p] = TimetableCell::Join;
            p += 1;
        }
        proof {
            assert(classes@.take(k + 1).drop_last() =~= classes@.take(k as int));
            assert(classes@.take(k + 1).last() == c);
            let want = placed(before, c);
            assert forall|dd: int, pp: int| in_grid(dd, pp) implies #[trigger] rows_view(
                rows@,
            )[dd][pp] == want[dd][pp] by {
                assert(rows_view(rows@)[dd][pp] == rows[dd][pp]);
            }
            assert(rows_view(rows@) =~~= want);
        }
        k += 1;
    }
    proof {
        assert(classes@.take(classes.len() as int) =~= classes@);
    }
    rows
}

} // verus!
