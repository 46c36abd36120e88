//! The timetable as a list: how many classes each day has.

use crate::class::Class;
use vstd::prelude::*;

verus! {

/// Number of classes of `classes` that are on the day at position `d` of
/// the week.
pub open spec fn classes_on(classes: Seq<Class>, d: int) -> nat
    decreases classes.len(),
{
    if classes.len() == 0 {
        0
    } else {
        classes_on(classes.drop_last(), d) + (if classes.last().day.spec_index() == d {
            1nat
        } else {
            0nat
        })
    }
}

/// For each of the 7 days of the week, the number of classes on it.
pub fn count_days(table_data: &[Class]) -> (days: Vec<usize>)
    ensures
        days.len() == 7,
        forall|d: int| 0 <= d < 7 ==> days[d] == classes_on(table_data@, d),
{
    let mut days: Vec<usize> = Vec::new();
    let mut d: usize = 0;
    while d < 7
        invariant
            d <= 7,
            days.len() == d,
            forall|i: int| 0 <= i < d ==> days[i] == 0,
        decreases 7 - d,
    {
        days.push(0);
        d += 1;
    }
    let mut k: usize = 0;
    while k < table_data.len()
        invariant
            k <= table_data.len(),
            days.len() == 7,
            forall|i: int| 0 <= i < 7 ==> days[i] == classes_on(table_data@.take(k as int), i),
            forall|i: int| 0 <= i < 7 ==> days[i] <= k,
        decreases table_data.len() - k,
    {
        let day = table_data[k].day.index();
        let ghost before = days@;
        days[day] = days[day] + 1;
        proof {
            assert(table_data@.take(k + 1).drop_last() =~= table_data@.take(k as int));
            assert forall|i: int| 0 <= i < 7 implies days[i] == classes_on(
                table_data@.take(k + 1),
                i,
            ) by {
                assert(before[i] == classes_on(table_data@.take(k as int), i));
            }
        }
        k += 1;
    }
    proof {
        assert(table_data@.take(table_data.len() as int) =~= table_data@);
    }
    days
}

} // verus!
