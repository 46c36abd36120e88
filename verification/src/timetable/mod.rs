//! The timetable of a student: when the periods of a day start and end,
//! how the timetable is to be shown, and the classes in the order of the
//! week.

pub mod grid;
pub mod list;

use crate::class::Class;
use vstd::prelude::*;

verus! {

/// The time at which period `p` of a day starts; empty for a period that
/// the day does not have.
pub open spec fn start_text(p: usize) -> Seq<char> {
    if p == 0 {
        "08:30 AM"@
    } else if p == 1 {
        "09:20 AM"@
    } else if p == 2 {
        "10:20 AM"@
    } else if p == 3 {
        "11:10 AM"@
    } else if p == 4 {
        "12:10 PM"@
    } else if p == 5 {
        "01:00 PM"@
    } else if p == 6 {
        "02:00 PM"@
    } else if p == 7 {
        "02:50 PM"@
    } else if p == 8 {
        "03:50 PM"@
    } else if p == 9 {
        "04:40 PM"@
    } else if p == 10 {
        "05:40 PM"@
    } else if p == 11 {
        "06:30 PM"@
    } else {
        ""@
    }
}

pub fn period_start_time(p: usize) -> (r: &'static str)
    ensures
        r@ == start_text(p),
{
    match p {
        0 => "08:30 AM",
        1 => "09:20 AM",
        2 => "10:20 AM",
        3 => "11:10 AM",
        4 => "12:10 PM",
        5 => "01:00 PM",
        6 => "02:00 PM",
        7 => "02:50 PM",
        8 => "03:50 PM",
        9 => "04:40 PM",
        10 => "05:40 PM",
        11 => "06:30 PM",
        _ => "",
    }
}

/// The time at which period `p` of a day ends; empty for a period that
/// the day does not have.
pub open spec fn end_text(p: usize) -> Seq<char> {
    if p == 0 {
        "09:20 AM"@
    } else if p == 1 {
        "10:10 AM"@
    } else if p == 2 {
        "11:10 AM"@
    } else if p == 3 {
        "12:00 PM"@
    } else if p == 4 {
        "01:00 PM"@
    } else if p == 5 {
        "01:50 PM"@
    } else if p == 6 {
        "02:50 PM"@
    } else if p == 7 {
        "03:40 PM"@
    } else if p == 8 {
        "04:40 PM"@
    } else if p == 9 {
        "05:30 PM"@
    } else if p == 10 {
        "06:30 PM"@
    } else if p == 11 {
        "07:20 PM"@
    } else {
        ""@
    }
}

pub fn period_end_time(p: usize) -> (r: &'static str)
    ensures
        r@ == end_text(p),
{
    match p {
        0 => "09:20 AM",
        1 => "10:10 AM",
        2 => "11:10 AM",
        3 => "12:00 PM",
        4 => "01:00 PM",
        5 => "01:50 PM",
        6 => "02:50 PM",
        7 => "03:40 PM",
        8 => "04:40 PM",
        9 => "05:30 PM",
        10 => "06:30 PM",
        11 => "07:20 PM",
        _ => "",
    }
}

/// Whether the timetable is shown as a grid or as a list.
#[derive(PartialEq, Eq, Structural, Copy, Clone, Debug)]
pub enum TimetableView {
    Grid,
    List,
}

impl Default for TimetableView {
    fn default() -> (r: Self)
        ensures
            r == TimetableView::Grid,
    {
        TimetableView::Grid
    }
}

impl TimetableView {
    /// The name under which the view is chosen.
    pub open spec fn text(&self) -> Seq<char> {
        match *self {
            TimetableView::Grid => "grid"@,
            TimetableView::List => "list"@,
        }
    }

    pub fn name(&self) -> (r: &'static str)
        ensures
            r@ == self.text(),
    {
        match self {
            TimetableView::Grid => "grid",
            TimetableView::List => "list",
        }
    }

    /// The view chosen under the name `s`, if it is the name of one.
    pub fn from_str(s: &str) -> (r: Option<TimetableView>)
        ensures
            r == (if s@ == "grid"@ {
                Some(TimetableView::Grid)
            } else if s@ == "list"@ {
                Some(TimetableView::List)
            } else {
                None
            }),
    {
        let s = String::from_str(s);
        if s == String::from_str("grid") {
            Some(TimetableView::Grid)
        } else if s == String::from_str("list") {
            Some(TimetableView::List)
        } else {
            None
        }
    }
}

/// Whether periods are shown by their times, by their numbers, or both.
#[derive(PartialEq, Eq, Structural, Copy, Clone, Debug)]
pub enum TimeStyle {
    Times,
    Numbers,
    Both,
}

impl Default for TimeStyle {
    fn default() -> (r: Self)
        ensures
            r == TimeStyle::Both,
    {
        TimeStyle::Both
    }
}

impl TimeStyle {
    /// The name under which the style is chosen.
    pub open spec fn text(&self) -> Seq<char> {
        match *self {
            TimeStyle::Times => "times"@,
            TimeStyle::Numbers => "numbers"@,
            TimeStyle::Both => "both"@,
        }
    }

    pub fn name(&self) -> (r: &'static str)
        ensures
            r@ == self.text(),
    {
        match self {
            TimeStyle::Times => "times",
            TimeStyle::Numbers => "numbers",
            TimeStyle::Both => "both",
        }
    }

    /// The style chosen under the name `s`, if it is the name of one.
    pub fn from_str(s: &str) -> (r: Option<TimeStyle>)
        ensures
            r == (if s@ == "times"@ {
                Some(TimeStyle::Times)
            } else if s@ == "numbers"@ {
                Some(TimeStyle::Numbers)
            } else if s@ == "both"@ {
                Some(TimeStyle::Both)
            } else {
                None
            }),
    {
        let s = String::from_str(s);
        if s == String::from_str("times") {
            Some(TimeStyle::Times)
        } else if s == String::from_str("numbers") {
            Some(TimeStyle::Numbers)
        } else if s == String::from_str("both") {
            Some(TimeStyle::Both)
        } else {
            None
        }
    }
}

/// How the timetable is to be shown.
#[derive(PartialEq, Eq, Structural, Copy, Clone, Debug)]
pub struct TimetableFlags {
    pub view: TimetableView,
    pub time_style: TimeStyle,
    pub show_loc: bool,
    pub show_prof: bool,
    pub show_code: bool,
}

impl Default for TimetableFlags {
    fn default() -> (r: Self)
        ensures
            r == (TimetableFlags {
                view: TimetableView::Grid,
                time_style: TimeStyle::Both,
                show_loc: false,
                show_prof: false,
                show_code: false,
            }),
    {
        TimetableFlags {
            view: TimetableView::Grid,
            time_style: TimeStyle::Both,
            show_loc: false,
            show_prof: false,
            show_code: false,
        }
    }
}

/// Class `a` comes no later in the week than class `b`: on an earlier
/// day, or on the same day and starting no later.
pub open spec fn starts_no_later(a: Class, b: Class) -> bool {
    a.day.spec_index() < b.day.spec_index() || (a.day.spec_index() == b.day.spec_index()
        && a.period.0 <= b.period.0)
}

/// `s` with `c` put after the last class that comes no later than it.
pub open spec fn put_in_order(s: Seq<Class>, c: Class) -> Seq<Class>
    decreases s.len(),
{
    if s.len() == 0 {
        seq![c]
    } else if starts_no_later(s.last(), c) {
        s.push(c)
    } else {
        put_in_order(s.drop_last(), c).push(s.last())
    }
}

/// The classes of `s` in the order of the week; classes of one day that
/// start together stay in the order that they have in `s`.
pub open spec fn in_week_order(s: Seq<Class>) -> Seq<Class>
    decreases s.len(),
{
    if s.len() == 0 {
        Seq::empty()
    } else {
        put_in_order(in_week_order(s.drop_last()), s.last())
    }
}

/// Each class of `s` comes no later than the classes after it.
pub open spec fn week_ordered(s: Seq<Class>) -> bool {
    forall|i: int, j: int| 0 <= i < j < s.len() ==> starts_no_later(s[i], s[j])
}

/// Putting a class where it belongs is inserting it at the position
/// after which every class comes later, and before which the last class
/// comes no later.
proof fn lemma_put_is_insert(s: Seq<Class>, c: Class, pos: int)
    requires
        0 <= pos <= s.len(),
        forall|k: int| pos <= k < s.len() ==> !starts_no_later(#[trigger] s[k], c),
        pos > 0 ==> starts_no_later(s[pos - 1], c),
    ensures
        put_in_order(s, c) == s.insert(pos, c),
    decreases s.len() - pos,
{
    if s.len() == 0 {
        assert(s.insert(pos, c) =~= seq![c]);
    } else if pos == s.len() {
        assert(s.insert(pos, c) =~= s.push(c));
    } else {
        let init = s.drop_last();
        assert(!starts_no_later(s[s.len() - 1], c));
        assert forall|k: int| pos <= k < init.len() implies !starts_no_later(
            #[trigger] init[k],
            c,
        ) by {
            assert(init[k] == s[k]);
        }
        lemma_put_is_insert(init, c, pos);
        assert(init.insert(pos, c).push(s.last()) =~= s.insert(pos, c));
    }
}

/// Putting a class where it belongs keeps an ordered list ordered, and
/// adds the class to it and nothing else.
pub proof fn lemma_put_in_order(s: Seq<Class>, c: Class)
    requires
        week_ordered(s),
    ensures
        week_ordered(put_in_order(s, c)),
        put_in_order(s, c).to_multiset() == s.to_multiset().insert(c),
        put_in_order(s, c).len() == s.len() + 1,
    decreases s.len(),
{
    broadcast use vstd::seq_lib::to_multiset_build;

    let r = put_in_order(s, c);
    if s.len() == 0 {
        assert(s.push(c) =~= seq![c]);
    } else if starts_no_later(s.last(), c) {
        assert forall|i: int, j: int| 0 <= i < j < r.len() implies starts_no_later(r[i], r[j]) by {
            if j == s.len() && i < s.len() - 1 {
                assert(starts_no_later(s[i], s[s.len() - 1]));
            }
        }
    } else {
        let init = s.drop_last();
        let last = s.last();
        assert forall|i: int, j: int| 0 <= i < j < init.len() implies starts_no_later(
            init[i],
            init[j],
        ) by {
            assert(starts_no_later(s[i], s[j]));
        }
        lemma_put_in_order(init, c);
        let r0 = put_in_order(init, c);
        assert(s =~= init.push(last));
        assert forall|i: int, j: int| 0 <= i < j < r.len() implies starts_no_later(r[i], r[j]) by {
            if j == r0.len() {
                let x = r0[i];
                assert(r0.to_multiset().count(x) > 0) by {
                    r0.to_multiset_ensures();
                    assert(r0.contains(x));
                }
                if x != c {
                    assert(init.to_multiset().count(x) > 0);
                    init.to_multiset_ensures();
                    assert(init.contains(x));
                    let k = choose|k: int| 0 <= k < init.len() && init[k] == x;
                    assert(starts_no_later(s[k], s[s.len() - 1]));
                }
            }
        }
    }
}

/// The classes in the order of the week are ordered, and are the classes
/// that were given, each as often as it was given.
pub proof fn lemma_in_week_order(s: Seq<Class>)
    ensures
        week_ordered(in_week_order(s)),
        in_week_order(s).to_multiset() == s.to_multiset(),
        in_week_order(s).len() == s.len(),
    decreases s.len(),
{
    broadcast use vstd::seq_lib::to_multiset_build;

    if s.len() == 0 {
        assert(in_week_order(s) =~= s);
    } else {
        lemma_in_week_order(s.drop_last());
        lemma_put_in_order(in_week_order(s.drop_last()), s.last());
        assert(s =~= s.drop_last().push(s.last()));
    }
}

fn comes_no_later(a: &Class, b: &Class) -> (r: bool)
    ensures
        r == starts_no_later(*a, *b),
{
    let da = a.day.index();
    let db = b.day.index();
    da < db || (da == db && a.period.0 <= b.period.0)
}

/// The classes in the order of the week: by day, and within a day by the
/// period in which they start; classes of one day that start together
/// stay in the order in which they were given.
pub fn sort_classes(classes: Vec<Class>) -> (r: Vec<Class>)
    ensures
        r@ == in_week_order(classes@),
{
    let mut out: Vec<Class> = Vec::new();
    let mut classes = classes;
    let ghost all = classes@;
    let mut i: usize = 0;
    let n = classes.len();
    proof {
        assert(all.take(0) =~= Seq::empty());
    }
    while i < n
        invariant
            i <= n,
            n == all.len(),
            classes@ == all,
            out@ == in_week_order(all.take(i as int)),
        decreases n - i,
    {
        let c = classes[i].clone();
        let mut pos: usize = out.len();
        while pos > 0 && !comes_no_later(&out[pos - 1], &c)
            invariant
                pos <= out.len(),
                forall|k: int| pos <= k < out.len() ==> !starts_no_later(#[trigger] out[k], c),
            decreases pos,
        {
            pos -= 1;
        }
        proof {
            lemma_put_is_insert(out@, c, pos as int);
            assert(all.take(i + 1).drop_last() =~= all.take(i as int));
        }
        out.insert(pos, c);
        i += 1;
    }
    proof {
        assert(all.take(n as int) =~= all);
    }
    out
}

} // verus!
