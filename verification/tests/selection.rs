use uni_web::class::{Building, Class, ClassId, DayOfWeek, Location, Section, Type, WeekParity};
use uni_web::registration::subject_set::SubjectSet;
use uni_web::registration::subjects_signal::SubjectsSignal;
use uni_web::registration::{fits_grid, Subject, SubjectChoices, SubjectId};

const SATURDAY: usize = 0;
const MONDAY: usize = 2;
const TUESDAY: usize = 3;

fn meeting(id: i64, ctype: Type, day: DayOfWeek, first: usize, last: usize) -> Class {
    Class {
        id: ClassId(id),
        ctype,
        code: format!("CSE{id}"),
        name: format!("Course {id}"),
        location: Location { building: Building::Electricity, floor: 1, room: "101".to_string() },
        day,
        period: (first, last),
    }
}

fn lecture(id: i64, day: DayOfWeek, first: usize, last: usize) -> Class {
    meeting(id, Type::Lecture { prof: format!("Prof {id}") }, day, first, last)
}

fn subject(id: i64, group: u8, day: DayOfWeek, first: usize, last: usize) -> Subject {
    Subject {
        id: SubjectId(id),
        group,
        max_seats: 30,
        lec: lecture(id, day, first, last),
        tut: None,
        lab: None,
    }
}

fn course(code: &str, choices: Vec<Subject>) -> SubjectChoices {
    SubjectChoices { level: 1, name: code.to_string(), code: code.to_string(), choices }
}

fn ids(v: &[i64]) -> Vec<SubjectId> {
    v.iter().map(|&i| SubjectId(i)).collect()
}

fn set(v: &[i64]) -> SubjectSet {
    SubjectSet::from_vec(&ids(v))
}

/// Two courses: CS with choices 1 and 2 (both Monday 0-1), MA with choices
/// 3 (Monday 1-2) and 4 (Tuesday 5-5).
fn catalog() -> Vec<SubjectChoices> {
    vec![
        course(
            "CS",
            vec![subject(1, 1, DayOfWeek::Monday, 0, 1), subject(2, 2, DayOfWeek::Monday, 0, 1)],
        ),
        course(
            "MA",
            vec![subject(3, 1, DayOfWeek::Monday, 1, 2), subject(4, 2, DayOfWeek::Tuesday, 5, 5)],
        ),
    ]
}

fn grid_cells(store: &SubjectsSignal) -> Vec<Vec<Vec<SubjectId>>> {
    (0..6)
        .map(|d| {
            (0..12)
                .map(|p| {
                    let mut c = store.grid().cell(d, p);
                    c.sort();
                    c
                })
                .collect()
        })
        .collect()
}

#[test]
fn selecting_a_second_choice_of_a_course_replaces_the_first() {
    let a = SubjectId(1);
    let b = SubjectId(2);
    let catalog = vec![course(
        "CS",
        vec![subject(1, 1, DayOfWeek::Monday, 0, 1), subject(2, 1, DayOfWeek::Monday, 0, 1)],
    )];
    assert!(fits_grid(&catalog));
    let mut store = SubjectsSignal::new(&SubjectSet::new(), &catalog);
    store.select(a);
    assert!(store.is_selected(a));
    assert_eq!(store.grid().cell(MONDAY, 0), vec![a]);
    assert_eq!(store.grid().cell(MONDAY, 1), vec![a]);
    store.select(b);
    assert!(!store.is_selected(a));
    assert!(store.is_selected(b));
    assert_eq!(store.grid().cell(MONDAY, 0), vec![b]);
    assert_eq!(store.grid().cell(MONDAY, 1), vec![b]);
    assert!(store.grid().cell(MONDAY, 2).is_empty());
    assert!(!store.has_collisions(b));
    assert!(!store.has_collisions(a));
}

#[test]
fn new_store_selects_exactly_the_saved_subjects() {
    let store = SubjectsSignal::new(&set(&[1, 4]), &catalog());
    assert!(store.is_selected(SubjectId(1)));
    assert!(!store.is_selected(SubjectId(2)));
    assert!(!store.is_selected(SubjectId(3)));
    assert!(store.is_selected(SubjectId(4)));
    assert!(store.is_selected_untracked(SubjectId(4)));
    assert!(store.saved());
    for i in 1..=4 {
        assert!(!store.has_changed(SubjectId(i)));
    }
    assert_eq!(store.selected_ids().to_vec(), ids(&[1, 4]));
    assert_eq!(store.grid().cell(MONDAY, 0), ids(&[1]));
    assert_eq!(store.grid().cell(MONDAY, 1), ids(&[1]));
    assert_eq!(store.grid().cell(TUESDAY, 5), ids(&[4]));
    assert!(store.grid().cell(MONDAY, 2).is_empty());
    assert_eq!(store.choices(), &catalog());
}

#[test]
fn saved_subjects_outside_the_catalog_are_ignored() {
    let store = SubjectsSignal::new(&set(&[1, 99]), &catalog());
    assert!(store.is_selected(SubjectId(1)));
    assert!(!store.is_selected(SubjectId(99)));
    assert!(!store.has_changed(SubjectId(99)));
    assert!(!store.has_collisions(SubjectId(99)));
    assert_eq!(store.selected_ids().to_vec(), ids(&[1]));
}

#[test]
fn unknown_subject_is_a_no_op_for_select_deselect_and_toggle() {
    let mut store = SubjectsSignal::new(&set(&[1]), &catalog());
    let before = grid_cells(&store);
    store.select(SubjectId(77));
    store.deselect(SubjectId(77));
    store.toggle(SubjectId(77));
    assert_eq!(grid_cells(&store), before);
    assert_eq!(store.selected_ids().to_vec(), ids(&[1]));
    assert!(store.saved());
}

#[test]
fn select_is_a_no_op_on_a_selected_subject() {
    let mut store = SubjectsSignal::new(&set(&[1]), &catalog());
    let before = grid_cells(&store);
    store.select(SubjectId(1));
    assert_eq!(grid_cells(&store), before);
    assert!(store.is_selected(SubjectId(1)));
    assert!(store.saved());
}

#[test]
fn deselect_is_a_no_op_on_an_unselected_subject() {
    let mut store = SubjectsSignal::new(&set(&[1]), &catalog());
    let before = grid_cells(&store);
    store.deselect(SubjectId(3));
    assert_eq!(grid_cells(&store), before);
    assert!(store.saved());
}

#[test]
fn collision_is_reported_for_both_subjects_that_share_a_cell() {
    let mut store = SubjectsSignal::new(&SubjectSet::new(), &catalog());
    store.select(SubjectId(1));
    assert!(!store.has_collisions(SubjectId(1)));
    store.select(SubjectId(3));
    // 1 takes Monday 0-1 and 3 takes Monday 1-2: they share Monday 1.
    assert_eq!(store.grid().cell(MONDAY, 0), ids(&[1]));
    let mut shared = store.grid().cell(MONDAY, 1);
    shared.sort();
    assert_eq!(shared, ids(&[1, 3]));
    assert_eq!(store.grid().cell(MONDAY, 2), ids(&[3]));
    assert!(store.has_collisions(SubjectId(1)));
    assert!(store.has_collisions(SubjectId(3)));
    // 4 is not selected: it takes no cell, so it has no collision.
    assert!(!store.has_collisions(SubjectId(4)));
    store.deselect(SubjectId(3));
    assert!(!store.has_collisions(SubjectId(1)));
    assert!(!store.has_collisions(SubjectId(3)));
}

#[test]
fn unselected_subject_over_a_crowded_cell_has_no_collision() {
    // 5 would meet on Monday 1 where 1 and 3 already collide.
    let mut all = catalog();
    all.push(course("PH", vec![subject(5, 1, DayOfWeek::Monday, 1, 1)]));
    let mut store = SubjectsSignal::new(&set(&[1, 3]), &all);
    assert!(!store.has_collisions(SubjectId(5)));
    store.select(SubjectId(5));
    assert!(store.has_collisions(SubjectId(5)));
}

#[test]
fn meeting_range_includes_its_last_period() {
    let all = vec![course("CS", vec![subject(1, 1, DayOfWeek::Saturday, 3, 5)])];
    let mut store = SubjectsSignal::new(&SubjectSet::new(), &all);
    store.select(SubjectId(1));
    assert!(store.grid().cell(SATURDAY, 2).is_empty());
    assert_eq!(store.grid().cell(SATURDAY, 3), ids(&[1]));
    assert_eq!(store.grid().cell(SATURDAY, 4), ids(&[1]));
    assert_eq!(store.grid().cell(SATURDAY, 5), ids(&[1]));
    assert!(store.grid().cell(SATURDAY, 6).is_empty());
}

#[test]
fn tutorial_and_lab_take_their_cells_too() {
    let mut s = subject(1, 1, DayOfWeek::Saturday, 0, 1);
    s.tut = Some(meeting(
        11,
        Type::Tutorial { sec_no: Section::One, week_parity: WeekParity::Both },
        DayOfWeek::Sunday,
        2,
        2,
    ));
    s.lab = Some(meeting(
        12,
        Type::Lab { sec_no: Section::One, week_parity: WeekParity::Even },
        DayOfWeek::Thursday,
        10,
        11,
    ));
    let all = vec![course("CS", vec![s.clone()])];
    let mut store = SubjectsSignal::new(&SubjectSet::new(), &all);
    store.select(SubjectId(1));
    assert_eq!(store.grid().cell(0, 0), ids(&[1]));
    assert_eq!(store.grid().cell(1, 2), ids(&[1]));
    assert_eq!(store.grid().cell(5, 10), ids(&[1]));
    assert_eq!(store.grid().cell(5, 11), ids(&[1]));
    assert_eq!(store.classes(), vec![s.lec.clone(), s.tut.clone().unwrap(), s.lab.clone().unwrap()]);
    store.deselect(SubjectId(1));
    assert!(store.classes().is_empty());
    assert!(grid_cells(&store).iter().all(|row| row.iter().all(|c| c.is_empty())));
}

#[test]
fn selecting_leaves_at_most_one_choice_of_the_course_selected() {
    let mut store = SubjectsSignal::new(&SubjectSet::new(), &catalog());
    for pick in [1, 2, 1, 2, 2, 1] {
        store.select(SubjectId(pick));
        let both = store.is_selected(SubjectId(1)) && store.is_selected(SubjectId(2));
        assert!(!both);
        assert!(store.is_selected(SubjectId(pick)));
    }
    // The other course is left alone.
    store.select(SubjectId(3));
    store.select(SubjectId(2));
    assert!(store.is_selected(SubjectId(3)));
    assert_eq!(store.selected_ids().to_vec(), ids(&[2, 3]));
}

#[test]
fn select_then_deselect_restores_the_grid() {
    let mut store = SubjectsSignal::new(&set(&[1]), &catalog());
    let before = grid_cells(&store);
    // No choice of the course of 3 and 4 is in the grid.
    store.select(SubjectId(4));
    assert_ne!(grid_cells(&store), before);
    store.deselect(SubjectId(4));
    assert_eq!(grid_cells(&store), before);
    assert!(store.saved());
}

#[test]
fn select_then_deselect_of_a_sibling_of_a_selected_subject_changes_the_grid() {
    let mut store = SubjectsSignal::new(&set(&[1]), &catalog());
    let before = grid_cells(&store);
    store.select(SubjectId(2));
    store.deselect(SubjectId(2));
    // Selecting 2 deselected 1, which does not come back.
    assert_ne!(grid_cells(&store), before);
    assert!(!store.is_selected(SubjectId(1)));
    assert!(grid_cells(&store).iter().all(|row| row.iter().all(|c| c.is_empty())));
}

#[test]
fn toggle_switches_the_selection() {
    let mut store = SubjectsSignal::new(&SubjectSet::new(), &catalog());
    store.toggle(SubjectId(3));
    assert!(store.is_selected(SubjectId(3)));
    assert!(store.has_changed(SubjectId(3)));
    assert!(!store.saved());
    store.toggle(SubjectId(3));
    assert!(!store.is_selected(SubjectId(3)));
    assert!(!store.has_changed(SubjectId(3)));
    assert!(store.saved());
}

#[test]
fn save_then_discard_changes_nothing() {
    let mut store = SubjectsSignal::new(&set(&[1]), &catalog());
    store.select(SubjectId(2));
    store.select(SubjectId(3));
    assert!(!store.saved());
    assert!(store.has_changed(SubjectId(1)));
    assert!(store.has_changed(SubjectId(2)));
    let outcome: Result<(), String> = Ok(());
    assert_eq!(store.save(outcome), Ok(()));
    let selected = store.selected_ids().to_vec();
    let grid = grid_cells(&store);
    assert!(store.saved());
    store.discard();
    assert_eq!(store.selected_ids().to_vec(), selected);
    assert_eq!(selected, ids(&[2, 3]));
    assert_eq!(grid_cells(&store), grid);
    assert!(store.saved());
    for i in 1..=4 {
        assert!(!store.has_changed(SubjectId(i)));
    }
}

#[test]
fn failed_save_leaves_the_changes_pending() {
    let mut store = SubjectsSignal::new(&set(&[1]), &catalog());
    store.select(SubjectId(4));
    let grid = grid_cells(&store);
    let outcome: Result<(), String> = Err("commit failed".to_string());
    assert_eq!(store.save(outcome), Err("commit failed".to_string()));
    assert!(!store.saved());
    assert!(store.has_changed(SubjectId(4)));
    assert!(!store.has_changed(SubjectId(1)));
    assert_eq!(store.selected_ids().to_vec(), ids(&[1, 4]));
    assert_eq!(grid_cells(&store), grid);
    // The student can still discard.
    store.discard();
    assert_eq!(store.selected_ids().to_vec(), ids(&[1]));
    assert!(store.saved());
}

#[test]
fn discard_rebuilds_the_grid_from_the_saved_state() {
    let mut store = SubjectsSignal::new(&set(&[1, 3]), &catalog());
    let saved_grid = grid_cells(&store);
    store.select(SubjectId(2));
    store.select(SubjectId(4));
    assert_eq!(store.selected_ids().to_vec(), ids(&[2, 4]));
    store.discard();
    assert_eq!(store.selected_ids().to_vec(), ids(&[1, 3]));
    assert_eq!(grid_cells(&store), saved_grid);
    assert!(store.has_collisions(SubjectId(1)));
}

#[test]
fn classes_lists_the_meetings_of_selected_subjects_in_ascending_order() {
    let all = catalog();
    let mut store = SubjectsSignal::new(&SubjectSet::new(), &all);
    store.select(SubjectId(4));
    store.select(SubjectId(2));
    assert_eq!(
        store.classes(),
        vec![all[0].choices[1].lec.clone(), all[1].choices[1].lec.clone()]
    );
}

#[test]
fn later_subject_with_the_same_identifier_stays() {
    let all = vec![
        course("CS", vec![subject(1, 1, DayOfWeek::Monday, 0, 0)]),
        course("MA", vec![subject(1, 1, DayOfWeek::Tuesday, 4, 4), subject(2, 1, DayOfWeek::Sunday, 0, 0)]),
    ];
    let mut store = SubjectsSignal::new(&set(&[1]), &all);
    assert!(store.grid().cell(MONDAY, 0).is_empty());
    assert_eq!(store.grid().cell(TUESDAY, 4), ids(&[1]));
    // 1 counts as a choice of the second course: selecting 2 deselects it.
    store.select(SubjectId(2));
    assert!(!store.is_selected(SubjectId(1)));
}

#[test]
fn catalog_with_a_friday_class_does_not_fit_the_grid() {
    let all = vec![course("CS", vec![subject(1, 1, DayOfWeek::Friday, 0, 0)])];
    assert!(!fits_grid(&all));
    let late = vec![course("CS", vec![subject(1, 1, DayOfWeek::Monday, 11, 12)])];
    assert!(!fits_grid(&late));
    let last = vec![course("CS", vec![subject(1, 1, DayOfWeek::Thursday, 11, 11)])];
    assert!(fits_grid(&last));
    assert!(fits_grid(&[]));
}

#[test]
fn subject_is_made_only_of_a_lecture_a_tutorial_and_a_lab() {
    let lec = lecture(1, DayOfWeek::Monday, 0, 0);
    let tut = meeting(
        2,
        Type::Tutorial { sec_no: Section::Two, week_parity: WeekParity::Odd },
        DayOfWeek::Monday,
        1,
        1,
    );
    let lab = meeting(
        3,
        Type::Lab { sec_no: Section::Two, week_parity: WeekParity::Both },
        DayOfWeek::Monday,
        2,
        2,
    );
    let ok = Subject::new(SubjectId(1), 1, 10, lec.clone(), Some(tut.clone()), Some(lab.clone()));
    assert!(ok.is_some());
    assert_eq!(ok.unwrap().meetings(), vec![lec.clone(), tut.clone(), lab.clone()]);
    assert!(Subject::new(SubjectId(1), 1, 10, lec.clone(), None, None).is_some());
    assert!(Subject::new(SubjectId(1), 1, 10, tut.clone(), None, None).is_none());
    assert!(Subject::new(SubjectId(1), 1, 10, lec.clone(), Some(lab.clone()), None).is_none());
    assert!(Subject::new(SubjectId(1), 1, 10, lec.clone(), None, Some(tut.clone())).is_none());
    assert!(Subject::new(SubjectId(1), 1, 10, lec.clone(), Some(lec.clone()), None).is_none());
}
