//! Class meetings: one scheduled occurrence of a lecture, lab or tutorial,
//! with the day and the inclusive period range it takes in the weekly grid.

use crate::utils::{decimal, decimal_string};
use vstd::prelude::*;

verus! {

/// Number of day rows in the weekly grid (Saturday to Thursday).
pub const GRID_DAYS: usize = 6;

/// Number of period columns in one day of the grid.
pub const GRID_PERIODS: usize = 12;

/// Weeks in which a biweekly meeting takes place.
#[derive(Hash, Copy, Clone, PartialEq, Eq, Structural, Debug)]
pub enum WeekParity {
    Both,
    Even,
    Odd,
}

impl Default for WeekParity {
    fn default() -> (r: Self)
        ensures
            r == WeekParity::Both,
    {
        WeekParity::Both
    }
}

impl WeekParity {
    /// The name under which the value is stored: lower case, words
    /// joined by underscores.
    pub open spec fn snake_text(&self) -> Seq<char> {
        match *self {
            WeekParity::Both => "both"@,
            WeekParity::Even => "even"@,
            WeekParity::Odd => "odd"@,
        }
    }

    pub fn snake_case(&self) -> (r: &'static str)
        ensures
            r@ == self.snake_text(),
    {
        match self {
            WeekParity::Both => "both",
            WeekParity::Even => "even",
            WeekParity::Odd => "odd",
        }
    }

    /// The value stored under the name `s`, if it is the name of one.
    pub fn from_snake_case(s: &str) -> (r: Option<WeekParity>)
        ensures
            r == (if s@ == "both"@ {
                Some(WeekParity::Both)
            } else if s@ == "even"@ {
                Some(WeekParity::Even)
            } else if s@ == "odd"@ {
                Some(WeekParity::Odd)
            } else {
                None
            }),
    {
        let s = String::from_str(s);
        if s == String::from_str("both") {
            Some(WeekParity::Both)
        } else if s == String::from_str("even") {
            Some(WeekParity::Even)
        } else if s == String::from_str("odd") {
            Some(WeekParity::Odd)
        } else {
            None
        }
    }
}

/// Section of a group that a lab or a tutorial is held for.
#[derive(Hash, Copy, Clone, PartialEq, Eq, Structural, Debug)]
pub enum Section {
    One,
    Two,
}

impl Default for Section {
    fn default() -> (r: Self)
        ensures
            r == Section::One,
    {
        Section::One
    }
}

impl Section {
    /// The section's number as it is shown and stored: 1 or 2.
    pub open spec fn spec_number(self) -> int {
        match self {
            Section::One => 1,
            Section::Two => 2,
        }
    }

    pub fn number(self) -> (n: u8)
        ensures
            n == self.spec_number(),
    {
        match self {
            Section::One => 1,
            Section::Two => 2,
        }
    }

    /// The section with the given number, if there is one.
    pub fn from_number(n: i64) -> (r: Option<Section>)
        ensures
            r == (if n == 1 {
                Some(Section::One)
            } else if n == 2 {
                Some(Section::Two)
            } else {
                None
            }),
    {
        if n == 1 {
            Some(Section::One)
        } else if n == 2 {
            Some(Section::Two)
        } else {
            None
        }
    }
}

/// The kind of a class meeting.
/// Lectures are weekly and name the professor; labs and tutorials may be
/// biweekly and carry a section number.
#[derive(Hash, PartialEq, Eq, Debug)]
pub enum Type {
    Lecture { prof: String },
    Lab { sec_no: Section, week_parity: WeekParity },
    Tutorial { sec_no: Section, week_parity: WeekParity },
}

impl Clone for Type {
    fn clone(&self) -> (r: Self)
        ensures
            r == *self,
    {
        match self {
            Type::Lecture { prof } => Type::Lecture { prof: prof.clone() },
            Type::Lab { sec_no, week_parity } => Type::Lab {
                sec_no: *sec_no,
                week_parity: *week_parity,
            },
            Type::Tutorial { sec_no, week_parity } => Type::Tutorial {
                sec_no: *sec_no,
                week_parity: *week_parity,
            },
        }
    }
}

impl Type {
    pub fn is_lecture(&self) -> (r: bool)
        ensures
            r == (*self is Lecture),
    {
        match self {
            Type::Lecture { .. } => true,
            _ => false,
        }
    }

    pub fn is_lab(&self) -> (r: bool)
        ensures
            r == (*self is Lab),
    {
        match self {
            Type::Lab { .. } => true,
            _ => false,
        }
    }

    pub fn is_tutorial(&self) -> (r: bool)
        ensures
            r == (*self is Tutorial),
    {
        match self {
            Type::Tutorial { .. } => true,
            _ => false,
        }
    }

    /// The kind as it is shown: "Lec", or "Lab - group " or "Tut - group "
    /// with the section's number.
    pub open spec fn text(&self) -> Seq<char> {
        match *self {
            Type::Lecture { .. } => "Lec"@,
            Type::Lab { sec_no, .. } => "Lab - group "@ + decimal(sec_no.spec_number() as nat),
            Type::Tutorial { sec_no, .. } => "Tut - group "@ + decimal(
                sec_no.spec_number() as nat,
            ),
        }
    }

    pub fn to_string(&self) -> (r: String)
        ensures
            r@ == self.text(),
    {
        match self {
            Type::Lecture { .. } => String::from_str("Lec"),
            Type::Lab { sec_no, .. } => {
                let mut r = String::from_str("Lab - group ");
                let n = decimal_string(sec_no.number() as u128);
                r.append(n.as_str());
                r
            },
            Type::Tutorial { sec_no, .. } => {
                let mut r = String::from_str("Tut - group ");
                let n = decimal_string(sec_no.number() as u128);
                r.append(n.as_str());
                r
            },
        }
    }

    /// The section number of a lab or a tutorial; a lecture has none.
    pub open spec fn spec_section(&self) -> Option<Section> {
        match *self {
            Type::Lecture { .. } => None,
            Type::Lab { sec_no, .. } => Some(sec_no),
            Type::Tutorial { sec_no, .. } => Some(sec_no),
        }
    }

    #[verifier::when_used_as_spec(spec_section)]
    pub fn section(&self) -> (r: Option<Section>)
        ensures
            r == self.spec_section(),
    {
        match self {
            Type::Lecture { .. } => None,
            Type::Lab { sec_no, .. } => Some(*sec_no),
            Type::Tutorial { sec_no, .. } => Some(*sec_no),
        }
    }
}

#[derive(Hash, Clone, Copy, PartialEq, Eq, Structural, Debug)]
pub enum Building {
    Electricity,
    Mechanics,
    PreparatorySouth,
    PreparatoryNorth,
    Ssp,
}

impl Building {
    /// The name under which the value is stored: lower case, words
    /// joined by underscores.
    pub open spec fn snake_text(&self) -> Seq<char> {
        match *self {
            Building::Electricity => "electricity"@,
            Building::Mechanics => "mechanics"@,
            Building::PreparatorySouth => "preparatory_south"@,
            Building::PreparatoryNorth => "preparatory_north"@,
            Building::Ssp => "ssp"@,
        }
    }

    pub fn snake_case(&self) -> (r: &'static str)
        ensures
            r@ == self.snake_text(),
    {
        match self {
            Building::Electricity => "electricity",
            Building::Mechanics => "mechanics",
            Building::PreparatorySouth => "preparatory_south",
            Building::PreparatoryNorth => "preparatory_north",
            Building::Ssp => "ssp",
        }
    }

    /// The value stored under the name `s`, if it is the name of one.
    pub fn from_snake_case(s: &str) -> (r: Option<Building>)
        ensures
            r == (if s@ == "electricity"@ {
                Some(Building::Electricity)
            } else if s@ == "mechanics"@ {
                Some(Building::Mechanics)
            } else if s@ == "preparatory_south"@ {
                Some(Building::PreparatorySouth)
            } else if s@ == "preparatory_north"@ {
                Some(Building::PreparatoryNorth)
            } else if s@ == "ssp"@ {
                Some(Building::Ssp)
            } else {
                None
            }),
    {
        let s = String::from_str(s);
        if s == String::from_str("electricity") {
            Some(Building::Electricity)
        } else if s == String::from_str("mechanics") {
            Some(Building::Mechanics)
        } else if s == String::from_str("preparatory_south") {
            Some(Building::PreparatorySouth)
        } else if s == String::from_str("preparatory_north") {
            Some(Building::PreparatoryNorth)
        } else if s == String::from_str("ssp") {
            Some(Building::Ssp)
        } else {
            None
        }
    }

    /// The building's name as it is shown.
    pub open spec fn text(&self) -> Seq<char> {
        match *self {
            Building::Electricity => "Electricity Building"@,
            Building::Mechanics => "Mechanics Building"@,
            Building::PreparatorySouth => "Preparatory Building South"@,
            Building::PreparatoryNorth => "Preparatory Building North"@,
            Building::Ssp => "SSP Building"@,
        }
    }

    pub fn name(&self) -> (r: &'static str)
        ensures
            r@ == self.text(),
    {
        match self {
            Building::Electricity => "Electricity Building",
            Building::Mechanics => "Mechanics Building",
            Building::PreparatorySouth => "Preparatory Building South",
            Building::PreparatoryNorth => "Preparatory Building North",
            Building::Ssp => "SSP Building",
        }
    }

    pub fn to_string(&self) -> (r: String)
        ensures
            r@ == self.text(),
    {
        String::from_str(self.name())
    }
}

/// A floor as it is shown: "Ground", "1st", "2nd", "3rd", and from the
/// fourth on the number with "th".
pub open spec fn floor_text(floor: u8) -> Seq<char> {
    if floor == 0 {
        "Ground"@
    } else if floor == 1 {
        "1st"@
    } else if floor == 2 {
        "2nd"@
    } else if floor == 3 {
        "3rd"@
    } else {
        decimal(floor as nat) + "th"@
    }
}

pub fn floor_name(floor: u8) -> (r: String)
    ensures
        r@ == floor_text(floor),
{
    match floor {
        0 => String::from_str("Ground"),
        1 => String::from_str("1st"),
        2 => String::from_str("2nd"),
        3 => String::from_str("3rd"),
        _ => {
            let mut r = decimal_string(floor as u128);
            r.append("th");
            r
        },
    }
}

/// Where a class meets.
#[derive(Hash, PartialEq, Eq, Debug)]
pub struct Location {
    pub building: Building,
    pub floor: u8,
    pub room: String,
}

impl Clone for Location {
    fn clone(&self) -> (r: Self)
        ensures
            r == *self,
    {
        Location { building: self.building, floor: self.floor, room: self.room.clone() }
    }
}

impl Location {
    /// The location as it is shown: the building, the floor and the room.
    pub open spec fn text(&self) -> Seq<char> {
        self.building.text() + ", "@ + floor_text(self.floor) + " Floor, "@ + self.room@
    }

    pub fn to_string(&self) -> (r: String)
        ensures
            r@ == self.text(),
    {
        let mut r = self.building.to_string();
        r.append(", ");
        let floor = floor_name(self.floor);
        r.append(floor.as_str());
        r.append(" Floor, ");
        r.append(self.room.as_str());
        r
    }
}

/// Day of the week, starting on Saturday.
#[derive(Hash, Clone, Copy, PartialEq, Eq, Structural, Debug)]
pub enum DayOfWeek {
    Saturday,
    Sunday,
    Monday,
    Tuesday,
    Wednesday,
    Thursday,
    Friday,
}

impl DayOfWeek {
    /// Position of the day in the week, Saturday being 0.
    pub open spec fn spec_index(self) -> int {
        match self {
            DayOfWeek::Saturday => 0,
            DayOfWeek::Sunday => 1,
            DayOfWeek::Monday => 2,
            DayOfWeek::Tuesday => 3,
            DayOfWeek::Wednesday => 4,
            DayOfWeek::Thursday => 5,
            DayOfWeek::Friday => 6,
        }
    }

    pub fn index(self) -> (i: usize)
        ensures
            i == self.spec_index(),
            i < 7,
    {
        match self {
            DayOfWeek::Saturday => 0,
            DayOfWeek::Sunday => 1,
            DayOfWeek::Monday => 2,
            DayOfWeek::Tuesday => 3,
            DayOfWeek::Wednesday => 4,
            DayOfWeek::Thursday => 5,
            DayOfWeek::Friday => 6,
        }
    }

    /// The day at the given position of the week, if the position is one.
    pub open spec fn spec_from_repr(i: usize) -> Option<DayOfWeek> {
        match i {
            0 => Some(DayOfWeek::Saturday),
            1 => Some(DayOfWeek::Sunday),
            2 => Some(DayOfWeek::Monday),
            3 => Some(DayOfWeek::Tuesday),
            4 => Some(DayOfWeek::Wednesday),
            5 => Some(DayOfWeek::Thursday),
            6 => Some(DayOfWeek::Friday),
            _ => None,
        }
    }

    /// The name under which the value is stored: lower case, words
    /// joined by underscores.
    pub open spec fn snake_text(&self) -> Seq<char> {
        match *self {
            DayOfWeek::Saturday => "saturday"@,
            DayOfWeek::Sunday => "sunday"@,
            DayOfWeek::Monday => "monday"@,
            DayOfWeek::Tuesday => "tuesday"@,
            DayOfWeek::Wednesday => "wednesday"@,
            DayOfWeek::Thursday => "thursday"@,
            DayOfWeek::Friday => "friday"@,
        }
    }

    pub fn snake_case(&self) -> (r: &'static str)
        ensures
            r@ == self.snake_text(),
    {
        match self {
            DayOfWeek::Saturday => "saturday",
            DayOfWeek::Sunday => "sunday",
            DayOfWeek::Monday => "monday",
            DayOfWeek::Tuesday => "tuesday",
            DayOfWeek::Wednesday => "wednesday",
            DayOfWeek::Thursday => "thursday",
            DayOfWeek::Friday => "friday",
        }
    }

    /// The value stored under the name `s`, if it is the name of one.
    pub fn from_snake_case(s: &str) -> (r: Option<DayOfWeek>)
        ensures
            r == (if s@ == "saturday"@ {
                Some(DayOfWeek::Saturday)
            } else if s@ == "sunday"@ {
                Some(DayOfWeek::Sunday)
            } else if s@ == "monday"@ {
                Some(DayOfWeek::Monday)
            } else if s@ == "tuesday"@ {
                Some(DayOfWeek::Tuesday)
            } else if s@ == "wednesday"@ {
                Some(DayOfWeek::Wednesday)
            } else if s@ == "thursday"@ {
                Some(DayOfWeek::Thursday)
            } else if s@ == "friday"@ {
                Some(DayOfWeek::Friday)
            } else {
                None
            }),
    {
        let s = String::from_str(s);
        if s == String::from_str("saturday") {
            Some(DayOfWeek::Saturday)
        } else if s == String::from_str("sunday") {
            Some(DayOfWeek::Sunday)
        } else if s == String::from_str("monday") {
            Some(DayOfWeek::Monday)
        } else if s == String::from_str("tuesday") {
            Some(DayOfWeek::Tuesday)
        } else if s == String::from_str("wednesday") {
            Some(DayOfWeek::Wednesday)
        } else if s == String::from_str("thursday") {
            Some(DayOfWeek::Thursday)
        } else if s == String::from_str("friday") {
            Some(DayOfWeek::Friday)
        } else {
            None
        }
    }

    /// The day's name.
    pub open spec fn text(&self) -> Seq<char> {
        match *self {
            DayOfWeek::Saturday => "Saturday"@,
            DayOfWeek::Sunday => "Sunday"@,
            DayOfWeek::Monday => "Monday"@,
            DayOfWeek::Tuesday => "Tuesday"@,
            DayOfWeek::Wednesday => "Wednesday"@,
            DayOfWeek::Thursday => "Thursday"@,
            DayOfWeek::Friday => "Friday"@,
        }
    }

    pub fn name(&self) -> (r: &'static str)
        ensures
            r@ == self.text(),
    {
        match self {
            DayOfWeek::Saturday => "Saturday",
            DayOfWeek::Sunday => "Sunday",
            DayOfWeek::Monday => "Monday",
            DayOfWeek::Tuesday => "Tuesday",
            DayOfWeek::Wednesday => "Wednesday",
            DayOfWeek::Thursday => "Thursday",
            DayOfWeek::Friday => "Friday",
        }
    }

    pub fn to_string(&self) -> (r: String)
        ensures
            r@ == self.text(),
    {
        String::from_str(self.name())
    }

    /// The first three letters of the day's name.
    pub fn short_name(&self) -> (r: &'static str)
        ensures
            r@ == self.text().subrange(0, 3),
    {
        proof {
            reveal_strlit("Saturday");
            reveal_strlit("Sunday");
            reveal_strlit("Monday");
            reveal_strlit("Tuesday");
            reveal_strlit("Wednesday");
            reveal_strlit("Thursday");
            reveal_strlit("Friday");
            reveal_strlit("Sat");
            reveal_strlit("Sun");
            reveal_strlit("Mon");
            reveal_strlit("Tue");
            reveal_strlit("Wed");
            reveal_strlit("Thu");
            reveal_strlit("Fri");
        }
        let r = match self {
            DayOfWeek::Saturday => "Sat",
            DayOfWeek::Sunday => "Sun",
            DayOfWeek::Monday => "Mon",
            DayOfWeek::Tuesday => "Tue",
            DayOfWeek::Wednesday => "Wed",
            DayOfWeek::Thursday => "Thu",
            DayOfWeek::Friday => "Fri",
        };
        assert(r@ =~= self.text().subrange(0, 3));
        r
    }

    #[verifier::when_used_as_spec(spec_from_repr)]
    pub fn from_repr(i: usize) -> (r: Option<DayOfWeek>)
        ensures
            r == Self::spec_from_repr(i),
    {
        match i {
            0 => Some(DayOfWeek::Saturday),
            1 => Some(DayOfWeek::Sunday),
            2 => Some(DayOfWeek::Monday),
            3 => Some(DayOfWeek::Tuesday),
            4 => Some(DayOfWeek::Wednesday),
            5 => Some(DayOfWeek::Thursday),
            6 => Some(DayOfWeek::Friday),
            _ => None,
        }
    }
}

#[derive(Hash, Clone, Copy, PartialEq, Eq, Structural, Debug)]
pub struct ClassId(pub i64);

impl Default for ClassId {
    fn default() -> (r: Self)
        ensures
            r == ClassId(0),
    {
        ClassId(0)
    }
}

impl From<i64> for ClassId {
    fn from(id: i64) -> (r: Self) {
        ClassId(id)
    }
}

impl vstd::std_specs::convert::FromSpecImpl<i64> for ClassId {
    open spec fn obeys_from_spec() -> bool {
        true
    }

    open spec fn from_spec(id: i64) -> Self {
        ClassId(id)
    }
}

/// One scheduled occurrence of a lecture, a lab or a tutorial.
#[derive(Hash, PartialEq, Eq, Debug)]
pub struct Class {
    pub id: ClassId,
    pub ctype: Type,
    /// The catalog code of the course, such as "CSEx102".
    pub code: String,
    pub name: String,
    pub location: Location,
    pub day: DayOfWeek,
    /// First and last period of the meeting, both included, counted from 0.
    pub period: (usize, usize),
}

impl Clone for Class {
    fn clone(&self) -> (r: Self)
        ensures
            r == *self,
    {
        Class {
            id: self.id,
            ctype: self.ctype.clone(),
            code: self.code.clone(),
            name: self.name.clone(),
            location: self.location.clone(),
            day: self.day,
            period: (self.period.0, self.period.1),
        }
    }
}

impl Class {
    /// The meeting lies inside the weekly grid: its day is one of the grid's
    /// rows and its last period one of the grid's columns.
    pub open spec fn spec_fits_grid(&self) -> bool {
        self.day.spec_index() < GRID_DAYS && self.period.1 < GRID_PERIODS
    }

    #[verifier::when_used_as_spec(spec_fits_grid)]
    pub fn fits_grid(&self) -> (r: bool)
        ensures
            r == self.spec_fits_grid(),
    {
        self.day.index() < GRID_DAYS && self.period.1 < GRID_PERIODS
    }

    /// The meeting takes the cell of day `d` and period `p`.
    pub open spec fn covers(&self, d: int, p: int) -> bool {
        self.day.spec_index() == d && self.period.0 <= p <= self.period.1
    }
}

/// Some meeting of `meetings` takes the cell of day `d` and period `p`.
pub open spec fn meetings_cover(meetings: Seq<Class>, d: int, p: int) -> bool {
    exists|k: int| 0 <= k < meetings.len() && (#[trigger] meetings[k]).covers(d, p)
}

/// Every meeting of `meetings` lies inside the weekly grid.
pub open spec fn meetings_fit_grid(meetings: Seq<Class>) -> bool {
    forall|k: int| 0 <= k < meetings.len() ==> (#[trigger] meetings[k]).spec_fits_grid()
}

/// A class as the database holds it.
#[derive(Debug)]
pub struct ClassRow {
    pub id: i64,
    pub ctype: String,
    pub prof: String,
    pub name: String,
    pub code: String,
    pub building: Building,
    pub floor: i64,
    pub room: String,
    pub day_of_week: DayOfWeek,
    pub period_start: i64,
    pub period_end: i64,
    pub section: Section,
    pub week_parity: WeekParity,
}

impl ClassRow {
    /// The kind that the row names is "lec", "lab" or "tut".
    pub open spec fn spec_kind_known(&self) -> bool {
        self.ctype@ == "lec"@ || self.ctype@ == "lab"@ || self.ctype@ == "tut"@
    }

    #[verifier::when_used_as_spec(spec_kind_known)]
    pub fn kind_known(&self) -> (r: bool)
        ensures
            r == self.spec_kind_known(),
    {
        self.ctype == String::from_str("lec") || self.ctype == String::from_str("lab")
            || self.ctype == String::from_str("tut")
    }

    /// The kind of the class of the row: a lecture with the row's
    /// professor, or a lab or a tutorial with the row's section and weeks.
    pub open spec fn kind(&self) -> Type {
        if self.ctype@ == "lec"@ {
            Type::Lecture { prof: self.prof }
        } else if self.ctype@ == "lab"@ {
            Type::Lab { sec_no: self.section, week_parity: self.week_parity }
        } else {
            Type::Tutorial { sec_no: self.section, week_parity: self.week_parity }
        }
    }

    /// The class of a row whose kind is known. The floor and the periods
    /// are cut to the size of their fields.
    pub fn into(self) -> (r: Class)
        requires
            self.spec_kind_known(),
        ensures
            r == (Class {
                id: ClassId(self.id),
                ctype: self.kind(),
                code: self.code,
                name: self.name,
                location: Location {
                    building: self.building,
                    floor: self.floor as u8,
                    room: self.room,
                },
                day: self.day_of_week,
                period: (self.period_start as usize, self.period_end as usize),
            }),
    {
        let ctype = if self.ctype == String::from_str("lec") {
            Type::Lecture { prof: self.prof }
        } else if self.ctype == String::from_str("lab") {
            Type::Lab { sec_no: self.section, week_parity: self.week_parity }
        } else {
            Type::Tutorial { sec_no: self.section, week_parity: self.week_parity }
        };
        Class {
            id: ClassId(self.id),
            ctype,
            code: self.code,
            name: self.name,
            location: Location {
                building: self.building,
                floor: #[verifier::truncate]
                (self.floor as u8),
                room: self.room,
            },
            day: self.day_of_week,
            period: (
                #[verifier::truncate]
                (self.period_start as usize),
                #[verifier::truncate]
                (self.period_end as usize),
            ),
        }
    }
}

} // verus!
