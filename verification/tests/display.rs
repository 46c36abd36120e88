use uni_web::class::{
    floor_name, Building, Class, ClassId, ClassRow, DayOfWeek, Location, Section, Type, WeekParity,
};
use uni_web::login::UserId;
use uni_web::registration::class_card::format_period;
use uni_web::timetable::grid::{grid_from_classes, is_placeable, TimetableCell};
use uni_web::timetable::list::count_days;
use uni_web::timetable::{
    period_end_time, period_start_time, sort_classes, TimeStyle, TimetableFlags, TimetableView,
};
use uni_web::utils::decimal_string;

fn class(id: i64, day: DayOfWeek, first: usize, last: usize) -> Class {
    Class {
        id: ClassId(id),
        ctype: Type::Lecture { prof: "P".to_string() },
        code: "C".to_string(),
        name: format!("N{id}"),
        location: Location { building: Building::Ssp, floor: 0, room: "R".to_string() },
        day,
        period: (first, last),
    }
}

#[test]
fn numbers_are_written_in_base_ten() {
    assert_eq!(decimal_string(0), "0");
    assert_eq!(decimal_string(7), "7");
    assert_eq!(decimal_string(10), "10");
    assert_eq!(decimal_string(1234567890), "1234567890");
    assert_eq!(decimal_string(u128::MAX), u128::MAX.to_string());
}

#[test]
fn class_kind_is_shown_with_the_section() {
    assert_eq!(Type::Lecture { prof: "X".to_string() }.to_string(), "Lec");
    assert_eq!(
        Type::Lab { sec_no: Section::One, week_parity: WeekParity::Both }.to_string(),
        "Lab - group 1"
    );
    assert_eq!(
        Type::Tutorial { sec_no: Section::Two, week_parity: WeekParity::Odd }.to_string(),
        "Tut - group 2"
    );
    assert_eq!(Section::One.number(), 1);
    assert_eq!(Section::Two.number(), 2);
    assert_eq!(Section::from_number(1), Some(Section::One));
    assert_eq!(Section::from_number(2), Some(Section::Two));
    assert_eq!(Section::from_number(0), None);
    assert_eq!(Section::from_number(3), None);
    assert_eq!(Section::default(), Section::One);
    assert_eq!(WeekParity::default(), WeekParity::Both);
    assert_eq!(
        Type::Lab { sec_no: Section::Two, week_parity: WeekParity::Both }.section(),
        Some(Section::Two)
    );
    assert_eq!(Type::Lecture { prof: "X".to_string() }.section(), None);
}

#[test]
fn buildings_are_shown_by_their_names() {
    assert_eq!(Building::Electricity.to_string(), "Electricity Building");
    assert_eq!(Building::Mechanics.to_string(), "Mechanics Building");
    assert_eq!(Building::PreparatorySouth.to_string(), "Preparatory Building South");
    assert_eq!(Building::PreparatoryNorth.to_string(), "Preparatory Building North");
    assert_eq!(Building::Ssp.to_string(), "SSP Building");
    assert_eq!(Building::Ssp.name(), "SSP Building");
}

#[test]
fn floors_are_shown_as_ordinals() {
    assert_eq!(floor_name(0), "Ground");
    assert_eq!(floor_name(1), "1st");
    assert_eq!(floor_name(2), "2nd");
    assert_eq!(floor_name(3), "3rd");
    assert_eq!(floor_name(4), "4th");
    assert_eq!(floor_name(11), "11th");
    assert_eq!(floor_name(21), "21th");
    assert_eq!(floor_name(255), "255th");
}

#[test]
fn location_is_shown_as_building_floor_and_room() {
    let l = Location { building: Building::Mechanics, floor: 0, room: "M12".to_string() };
    assert_eq!(l.to_string(), "Mechanics Building, Ground Floor, M12");
    let l = Location { building: Building::Ssp, floor: 5, room: "".to_string() };
    assert_eq!(l.to_string(), "SSP Building, 5th Floor, ");
}

#[test]
fn days_have_names_short_names_and_positions() {
    let days = [
        (DayOfWeek::Saturday, "Saturday", "Sat"),
        (DayOfWeek::Sunday, "Sunday", "Sun"),
        (DayOfWeek::Monday, "Monday", "Mon"),
        (DayOfWeek::Tuesday, "Tuesday", "Tue"),
        (DayOfWeek::Wednesday, "Wednesday", "Wed"),
        (DayOfWeek::Thursday, "Thursday", "Thu"),
        (DayOfWeek::Friday, "Friday", "Fri"),
    ];
    for (i, (day, name, short)) in days.iter().enumerate() {
        assert_eq!(day.index(), i);
        assert_eq!(DayOfWeek::from_repr(i), Some(*day));
        assert_eq!(day.to_string(), *name);
        assert_eq!(day.name(), *name);
        assert_eq!(day.short_name(), *short);
    }
    assert_eq!(DayOfWeek::from_repr(7), None);
    assert_eq!(DayOfWeek::from_repr(usize::MAX), None);
}

#[test]
fn identifiers_are_made_from_numbers() {
    assert_eq!(ClassId::from(5), ClassId(5));
    assert_eq!(ClassId::default(), ClassId(0));
    assert_eq!(UserId::from(-3), UserId(-3));
}

#[test]
fn class_fits_the_grid_up_to_thursday_and_the_twelfth_period() {
    assert!(class(1, DayOfWeek::Thursday, 0, 11).fits_grid());
    assert!(!class(1, DayOfWeek::Thursday, 0, 12).fits_grid());
    assert!(!class(1, DayOfWeek::Friday, 0, 0).fits_grid());
    assert!(class(1, DayOfWeek::Saturday, 0, 0).fits_grid());
}

fn row(ctype: &str) -> ClassRow {
    ClassRow {
        id: 9,
        ctype: ctype.to_string(),
        prof: "Dr. A".to_string(),
        name: "Algebra".to_string(),
        code: "MA101".to_string(),
        building: Building::PreparatoryNorth,
        floor: 2,
        room: "N2".to_string(),
        day_of_week: DayOfWeek::Tuesday,
        period_start: 3,
        period_end: 4,
        section: Section::Two,
        week_parity: WeekParity::Even,
    }
}

#[test]
fn database_row_becomes_a_class() {
    assert!(row("lec").kind_known());
    assert!(row("lab").kind_known());
    assert!(row("tut").kind_known());
    assert!(!row("seminar").kind_known());
    assert!(!row("").kind_known());
    let c = row("lec").into();
    assert_eq!(
        c,
        Class {
            id: ClassId(9),
            ctype: Type::Lecture { prof: "Dr. A".to_string() },
            code: "MA101".to_string(),
            name: "Algebra".to_string(),
            location: Location {
                building: Building::PreparatoryNorth,
                floor: 2,
                room: "N2".to_string()
            },
            day: DayOfWeek::Tuesday,
            period: (3, 4),
        }
    );
    assert_eq!(
        row("lab").into().ctype,
        Type::Lab { sec_no: Section::Two, week_parity: WeekParity::Even }
    );
    assert_eq!(
        row("tut").into().ctype,
        Type::Tutorial { sec_no: Section::Two, week_parity: WeekParity::Even }
    );
    let mut wide = row("lec");
    wide.floor = 258;
    assert_eq!(wide.into().location.floor, 2);
}

#[test]
fn periods_are_shown_counted_from_one() {
    assert_eq!(format_period((0, 0)), "1");
    assert_eq!(format_period((4, 4)), "5");
    assert_eq!(format_period((0, 1)), "1 \u{2192} 2");
    assert_eq!(format_period((9, 11)), "10 \u{2192} 12");
}

#[test]
fn periods_have_start_and_end_times() {
    assert_eq!(period_start_time(0), "08:30 AM");
    assert_eq!(period_end_time(0), "09:20 AM");
    assert_eq!(period_start_time(4), "12:10 PM");
    assert_eq!(period_end_time(3), "12:00 PM");
    assert_eq!(period_start_time(11), "06:30 PM");
    assert_eq!(period_end_time(11), "07:20 PM");
    assert_eq!(period_start_time(12), "");
    assert_eq!(period_end_time(12), "");
    for p in 0..11 {
        assert!(!period_start_time(p).is_empty());
        assert!(!period_end_time(p).is_empty());
    }
}

#[test]
fn timetable_settings_have_names_and_defaults() {
    assert_eq!(TimetableView::default(), TimetableView::Grid);
    assert_eq!(TimeStyle::default(), TimeStyle::Both);
    assert_eq!(TimetableView::Grid.name(), "grid");
    assert_eq!(TimetableView::List.name(), "list");
    assert_eq!(TimetableView::from_str("list"), Some(TimetableView::List));
    assert_eq!(TimetableView::from_str("grid"), Some(TimetableView::Grid));
    assert_eq!(TimetableView::from_str("Grid"), None);
    assert_eq!(TimeStyle::Times.name(), "times");
    assert_eq!(TimeStyle::Numbers.name(), "numbers");
    assert_eq!(TimeStyle::Both.name(), "both");
    assert_eq!(TimeStyle::from_str("times"), Some(TimeStyle::Times));
    assert_eq!(TimeStyle::from_str("numbers"), Some(TimeStyle::Numbers));
    assert_eq!(TimeStyle::from_str("both"), Some(TimeStyle::Both));
    assert_eq!(TimeStyle::from_str(""), None);
    let flags = TimetableFlags::default();
    assert_eq!(flags.view, TimetableView::Grid);
    assert_eq!(flags.time_style, TimeStyle::Both);
    assert!(!flags.show_loc && !flags.show_prof && !flags.show_code);
}

#[test]
fn classes_are_sorted_by_day_then_first_period_keeping_ties_in_order() {
    let a = class(1, DayOfWeek::Monday, 4, 5);
    let b = class(2, DayOfWeek::Saturday, 0, 0);
    let c = class(3, DayOfWeek::Monday, 1, 3);
    let d = class(4, DayOfWeek::Monday, 4, 4);
    let e = class(5, DayOfWeek::Friday, 0, 0);
    let f = class(6, DayOfWeek::Saturday, 0, 3);
    let sorted = sort_classes(vec![a.clone(), b.clone(), c.clone(), d.clone(), e.clone(), f.clone()]);
    assert_eq!(sorted, vec![b, f, c, a, d, e]);
    assert_eq!(sort_classes(vec![]), vec![]);
}

#[test]
fn timetable_grid_marks_where_a_class_starts_and_goes_on() {
    let a = class(1, DayOfWeek::Saturday, 0, 0);
    let b = class(2, DayOfWeek::Monday, 1, 3);
    let grid = grid_from_classes(vec![a.clone(), b.clone()]);
    assert_eq!(grid.len(), 6);
    for (d, row) in grid.iter().enumerate() {
        assert_eq!(row.len(), 12);
        for (p, cell) in row.iter().enumerate() {
            let expected = match (d, p) {
                (0, 0) => TimetableCell::Start(a.clone()),
                (2, 1) => TimetableCell::Start(b.clone()),
                (2, 2) | (2, 3) => TimetableCell::Join,
                _ => TimetableCell::Empty,
            };
            assert_eq!(*cell, expected);
        }
    }
}

#[test]
fn later_class_is_written_over_an_earlier_one_in_the_timetable() {
    let a = class(1, DayOfWeek::Sunday, 2, 5);
    let b = class(2, DayOfWeek::Sunday, 4, 4);
    let grid = grid_from_classes(vec![a.clone(), b.clone()]);
    assert_eq!(grid[1][2], TimetableCell::Start(a.clone()));
    assert_eq!(grid[1][3], TimetableCell::Join);
    assert_eq!(grid[1][4], TimetableCell::Start(b.clone()));
    assert_eq!(grid[1][5], TimetableCell::Join);
    assert_eq!(grid[1][6], TimetableCell::Empty);
    assert_eq!(grid[1][4].clone(), TimetableCell::Start(b));
}

#[test]
fn classes_are_counted_by_day() {
    let classes = vec![
        class(1, DayOfWeek::Monday, 0, 0),
        class(2, DayOfWeek::Friday, 0, 0),
        class(3, DayOfWeek::Monday, 1, 1),
        class(4, DayOfWeek::Saturday, 0, 0),
        class(5, DayOfWeek::Monday, 2, 2),
    ];
    assert_eq!(count_days(&classes), vec![1, 0, 3, 0, 0, 0, 1]);
    assert_eq!(count_days(&[]), vec![0; 7]);
}

#[test]
fn stored_names_are_lower_case_with_underscores() {
    for b in [
        Building::Electricity,
        Building::Mechanics,
        Building::PreparatorySouth,
        Building::PreparatoryNorth,
        Building::Ssp,
    ] {
        assert_eq!(Building::from_snake_case(b.snake_case()), Some(b));
    }
    assert_eq!(Building::PreparatorySouth.snake_case(), "preparatory_south");
    assert_eq!(Building::Ssp.snake_case(), "ssp");
    assert_eq!(Building::from_snake_case("Ssp"), None);
    for i in 0..7 {
        let d = DayOfWeek::from_repr(i).unwrap();
        assert_eq!(DayOfWeek::from_snake_case(d.snake_case()), Some(d));
        assert_eq!(d.snake_case(), d.name().to_lowercase());
    }
    assert_eq!(DayOfWeek::from_snake_case("someday"), None);
    for w in [WeekParity::Both, WeekParity::Even, WeekParity::Odd] {
        assert_eq!(WeekParity::from_snake_case(w.snake_case()), Some(w));
    }
    assert_eq!(WeekParity::Odd.snake_case(), "odd");
    assert_eq!(WeekParity::from_snake_case(""), None);
}

#[test]
fn class_is_placeable_when_its_day_and_both_periods_are_in_the_grid() {
    assert!(is_placeable(&class(1, DayOfWeek::Thursday, 11, 11)));
    assert!(is_placeable(&class(1, DayOfWeek::Saturday, 5, 2)));
    assert!(!is_placeable(&class(1, DayOfWeek::Saturday, 12, 2)));
    assert!(!is_placeable(&class(1, DayOfWeek::Saturday, 2, 12)));
    assert!(!is_placeable(&class(1, DayOfWeek::Friday, 0, 0)));
}
