use uni_web::class::{Building, Class, ClassId, DayOfWeek, Location, Type};
use uni_web::registration::schedule_grid::ScheduleGrid;
use uni_web::registration::subject_set::SubjectSet;
use uni_web::registration::SubjectId;

fn class(day: DayOfWeek, first: usize, last: usize) -> Class {
    Class {
        id: ClassId(1),
        ctype: Type::Lecture { prof: "P".to_string() },
        code: "C".to_string(),
        name: "N".to_string(),
        location: Location { building: Building::Ssp, floor: 0, room: "R".to_string() },
        day,
        period: (first, last),
    }
}

fn ids(v: &[i64]) -> Vec<SubjectId> {
    v.iter().map(|&i| SubjectId(i)).collect()
}

#[test]
fn empty_grid_has_no_subject_anywhere() {
    let g = ScheduleGrid::new();
    for d in 0..6 {
        for p in 0..12 {
            assert!(g.cell(d, p).is_empty());
        }
    }
    assert!(!g.has_collision(SubjectId(1), &vec![class(DayOfWeek::Monday, 0, 11)]));
}

#[test]
fn occupy_fills_exactly_the_cells_of_the_meetings() {
    let mut g = ScheduleGrid::new();
    let meetings = vec![class(DayOfWeek::Sunday, 2, 4), class(DayOfWeek::Thursday, 11, 11)];
    g.occupy(SubjectId(7), &meetings);
    for d in 0..6 {
        for p in 0..12 {
            let expected = (d == 1 && (2..=4).contains(&p)) || (d == 5 && p == 11);
            assert_eq!(g.cell(d, p), if expected { ids(&[7]) } else { vec![] });
        }
    }
}

#[test]
fn occupy_twice_keeps_a_subject_once_in_a_cell() {
    let mut g = ScheduleGrid::new();
    let meetings = vec![class(DayOfWeek::Sunday, 2, 3), class(DayOfWeek::Sunday, 3, 4)];
    g.occupy(SubjectId(7), &meetings);
    g.occupy(SubjectId(7), &meetings);
    assert_eq!(g.cell(1, 3), ids(&[7]));
    // A subject does not collide with itself.
    assert!(!g.has_collision(SubjectId(7), &meetings));
}

#[test]
fn vacate_removes_only_the_given_subject() {
    let mut g = ScheduleGrid::new();
    let a = vec![class(DayOfWeek::Monday, 0, 2)];
    let b = vec![class(DayOfWeek::Monday, 2, 3)];
    g.occupy(SubjectId(1), &a);
    g.occupy(SubjectId(2), &b);
    assert!(g.has_collision(SubjectId(1), &a));
    assert!(g.has_collision(SubjectId(2), &b));
    g.vacate(SubjectId(1), &a);
    assert!(g.cell(2, 0).is_empty());
    assert!(g.cell(2, 1).is_empty());
    assert_eq!(g.cell(2, 2), ids(&[2]));
    assert_eq!(g.cell(2, 3), ids(&[2]));
    assert!(!g.has_collision(SubjectId(2), &b));
    assert!(!g.has_collision(SubjectId(1), &a));
}

#[test]
fn collision_needs_the_subject_itself_in_the_cell() {
    let mut g = ScheduleGrid::new();
    let cell = vec![class(DayOfWeek::Monday, 5, 5)];
    g.occupy(SubjectId(1), &cell);
    g.occupy(SubjectId(2), &cell);
    assert!(g.has_collision(SubjectId(1), &cell));
    // 3 is not in the grid.
    assert!(!g.has_collision(SubjectId(3), &cell));
    // 1 asked about cells that it shares with nobody.
    assert!(!g.has_collision(SubjectId(1), &vec![class(DayOfWeek::Monday, 6, 7)]));
}

#[test]
fn meeting_that_ends_before_it_starts_takes_no_cell() {
    let mut g = ScheduleGrid::new();
    g.occupy(SubjectId(1), &vec![class(DayOfWeek::Monday, 5, 4)]);
    for p in 0..12 {
        assert!(g.cell(2, p).is_empty());
    }
}

#[test]
fn subject_set_keeps_members_once_and_in_ascending_order() {
    let s = SubjectSet::from_vec(&ids(&[5, 1, 3, 1, 5, 2]));
    assert_eq!(s.to_vec(), ids(&[1, 2, 3, 5]));
    assert_eq!(s.len(), 4);
    assert!(!s.is_empty());
    assert!(s.contains(SubjectId(3)));
    assert!(!s.contains(SubjectId(4)));
    assert_eq!(s.get(0), SubjectId(1));
    assert_eq!(s.get(3), SubjectId(5));
    assert_eq!(s.position(SubjectId(5)), Some(3));
    assert_eq!(s.position(SubjectId(4)), None);
    assert!(SubjectSet::new().is_empty());
    assert_eq!(SubjectSet::from_slice(&ids(&[2, 2])).to_vec(), ids(&[2]));
}

#[test]
fn subject_set_insert_and_remove() {
    let mut s = SubjectSet::new();
    assert!(s.insert(SubjectId(4)));
    assert!(s.insert(SubjectId(-2)));
    assert!(!s.insert(SubjectId(4)));
    assert_eq!(s.insert_at(SubjectId(0)), (true, 1));
    assert_eq!(s.insert_at(SubjectId(4)), (false, 2));
    assert_eq!(s.to_vec(), ids(&[-2, 0, 4]));
    assert!(s.remove(SubjectId(0)));
    assert!(!s.remove(SubjectId(0)));
    assert_eq!(s.to_vec(), ids(&[-2, 4]));
    let c = s.clone();
    assert_eq!(c.to_vec(), s.to_vec());
}

#[test]
fn subject_set_differences() {
    let stored = SubjectSet::from_vec(&ids(&[1, 2, 3]));
    let target = SubjectSet::from_vec(&ids(&[2, 3, 4]));
    assert_eq!(stored.difference(&target).to_vec(), ids(&[1]));
    assert_eq!(target.difference(&stored).to_vec(), ids(&[4]));
    assert_eq!(target.symmetric_difference(&stored).to_vec(), ids(&[1, 4]));
    assert_eq!(stored.symmetric_difference(&target).to_vec(), ids(&[1, 4]));
    assert!(stored.symmetric_difference(&stored).is_empty());
    assert_eq!(stored.symmetric_difference(&SubjectSet::new()).to_vec(), ids(&[1, 2, 3]));
}
