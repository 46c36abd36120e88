use uni_web::login::UserId;
use uni_web::registration::class_card::ClientSyncAdapter;
use uni_web::registration::rem_seats_ws::RemSeatsMsg;
use uni_web::registration::seat_view::{RegistrationError, MAX_ROWS};
use uni_web::registration::server_fns::{
    get_rem_seats, get_subbed_subjects, register_subjects, SeatLedger,
};
use uni_web::registration::subject_set::SubjectSet;
use uni_web::registration::SubjectId;

fn ids(v: &[i64]) -> Vec<SubjectId> {
    v.iter().map(|&i| SubjectId(i)).collect()
}

fn set(v: &[i64]) -> SubjectSet {
    SubjectSet::from_vec(&ids(v))
}

fn msg(v: &[(i64, i64)]) -> RemSeatsMsg {
    RemSeatsMsg(v.iter().map(|&(i, n)| (SubjectId(i), n)).collect())
}

/// Subjects 1 to 4 with 10, 20, 30 and 1 seats.
fn ledger() -> SeatLedger {
    let mut l = SeatLedger::new();
    assert!(l.add_subject(SubjectId(3), 30));
    assert!(l.add_subject(SubjectId(1), 10));
    assert!(l.add_subject(SubjectId(4), 1));
    assert!(l.add_subject(SubjectId(2), 20));
    l
}

const ANN: Option<UserId> = Some(UserId(100));
const BOB: Option<UserId> = Some(UserId(200));

#[test]
fn registration_changes_and_reports_only_the_symmetric_difference() {
    let mut l = ledger();
    assert_eq!(register_subjects(&mut l, ANN, &set(&[1, 2, 3])), Ok(msg(&[(1, 9), (2, 19), (3, 29)])));
    assert_eq!(l.subscribed(UserId(100)).to_vec(), ids(&[1, 2, 3]));
    // stored = {1,2,3}, target = {2,3,4}: 1 is given up, 4 taken up.
    let published = register_subjects(&mut l, ANN, &set(&[2, 3, 4]));
    assert_eq!(published, Ok(msg(&[(1, 10), (4, 0)])));
    assert_eq!(l.subscribed(UserId(100)).to_vec(), ids(&[2, 3, 4]));
    assert_eq!(l.remaining(SubjectId(1)), Some(10));
    assert_eq!(l.remaining(SubjectId(2)), Some(19));
    assert_eq!(l.remaining(SubjectId(3)), Some(29));
    assert_eq!(l.remaining(SubjectId(4)), Some(0));
}

#[test]
fn registering_the_stored_set_again_is_a_no_op() {
    let mut l = ledger();
    assert!(register_subjects(&mut l, ANN, &set(&[1, 2])).is_ok());
    let before = l.remaining_for(None);
    assert_eq!(register_subjects(&mut l, ANN, &set(&[2, 1])), Ok(msg(&[])));
    assert_eq!(l.remaining_for(None), before);
    assert_eq!(l.subscribed(UserId(100)).to_vec(), ids(&[1, 2]));
}

#[test]
fn registration_without_a_student_is_unauthorized() {
    let mut l = ledger();
    assert_eq!(register_subjects(&mut l, None, &set(&[1])), Err(RegistrationError::Unauthorized));
    assert_eq!(register_subjects(&mut l, None, &set(&[99])), Err(RegistrationError::Unauthorized));
    assert_eq!(l.remaining_for(None), msg(&[(1, 10), (2, 20), (3, 30), (4, 1)]));
    assert_eq!(get_subbed_subjects(&l, None).err(), Some(RegistrationError::Unauthorized));
}

#[test]
fn registration_for_an_unknown_subject_is_refused_before_any_write() {
    let mut l = ledger();
    assert!(register_subjects(&mut l, ANN, &set(&[1])).is_ok());
    // The least unknown subject is named.
    assert_eq!(
        register_subjects(&mut l, ANN, &set(&[2, 9, 7, 3])),
        Err(RegistrationError::UnknownSubject(SubjectId(7)))
    );
    assert_eq!(l.subscribed(UserId(100)).to_vec(), ids(&[1]));
    assert_eq!(l.remaining_for(None), msg(&[(1, 9), (2, 20), (3, 30), (4, 1)]));
}

#[test]
fn registration_that_the_table_cannot_take_fails_and_writes_nothing() {
    let mut l = SeatLedger::with_capacity(3);
    for i in 1..=4 {
        l.add_subject(SubjectId(i), 5);
    }
    assert!(register_subjects(&mut l, ANN, &set(&[1, 2])).is_ok());
    // Bob's two rows would make four.
    assert_eq!(register_subjects(&mut l, BOB, &set(&[1, 2])), Err(RegistrationError::CommitFailed));
    assert!(l.subscribed(UserId(200)).is_empty());
    assert_eq!(l.remaining_for(None), msg(&[(1, 4), (2, 4), (3, 5), (4, 5)]));
    // One row fits.
    assert_eq!(register_subjects(&mut l, BOB, &set(&[2])), Ok(msg(&[(2, 3)])));
    // Ann's own rows make room for her new ones.
    assert_eq!(register_subjects(&mut l, ANN, &set(&[3, 4])), Ok(msg(&[(1, 5), (2, 4), (3, 4), (4, 4)])));
    // A no-op is no commit, so it cannot fail.
    assert_eq!(register_subjects(&mut l, ANN, &set(&[3, 4])), Ok(msg(&[])));
}

#[test]
fn table_takes_no_more_rows_than_any_table_does() {
    let l = SeatLedger::with_capacity(usize::MAX);
    assert!(l.remaining_for(None).0.is_empty());
    assert_eq!(MAX_ROWS, 0x7fff_ffff);
}

#[test]
fn remaining_seats_go_below_zero_when_oversubscribed() {
    let mut l = ledger();
    assert_eq!(register_subjects(&mut l, ANN, &set(&[4])), Ok(msg(&[(4, 0)])));
    assert_eq!(register_subjects(&mut l, BOB, &set(&[4])), Ok(msg(&[(4, -1)])));
    assert_eq!(l.taken(SubjectId(4)), 2);
    assert_eq!(l.remaining(SubjectId(4)), Some(-1));
}

#[test]
fn remaining_for_a_subset_skips_unknown_subjects() {
    let mut l = ledger();
    assert!(register_subjects(&mut l, ANN, &set(&[2])).is_ok());
    assert_eq!(l.remaining_for(Some(&set(&[9, 2, 1]))), msg(&[(1, 10), (2, 19)]));
    assert_eq!(l.remaining_for(Some(&SubjectSet::new())), msg(&[]));
    assert_eq!(l.remaining_for(None), msg(&[(1, 10), (2, 19), (3, 30), (4, 1)]));
    assert_eq!(l.remaining(SubjectId(9)), None);
    assert!(l.knows(SubjectId(1)));
    assert!(!l.knows(SubjectId(9)));
}

#[test]
fn get_rem_seats_of_no_subjects_is_the_snapshot() {
    let mut l = ledger();
    assert!(register_subjects(&mut l, ANN, &set(&[1, 3])).is_ok());
    assert_eq!(get_rem_seats(&[], &l), msg(&[(1, 9), (2, 20), (3, 29), (4, 1)]));
    assert_eq!(get_rem_seats(&ids(&[3, 3, 2]), &l), msg(&[(2, 20), (3, 29)]));
}

#[test]
fn get_subbed_subjects_is_what_the_student_registered() {
    let mut l = ledger();
    assert!(register_subjects(&mut l, ANN, &set(&[4, 1])).is_ok());
    assert!(register_subjects(&mut l, BOB, &set(&[2])).is_ok());
    assert_eq!(get_subbed_subjects(&l, ANN).unwrap().to_vec(), ids(&[1, 4]));
    assert_eq!(get_subbed_subjects(&l, BOB).unwrap().to_vec(), ids(&[2]));
    assert!(get_subbed_subjects(&l, Some(UserId(300))).unwrap().is_empty());
}

#[test]
fn add_subject_again_changes_its_seats() {
    let mut l = ledger();
    assert!(register_subjects(&mut l, ANN, &set(&[1])).is_ok());
    assert!(!l.add_subject(SubjectId(1), 15));
    assert_eq!(l.remaining(SubjectId(1)), Some(14));
    assert_eq!(l.remaining(SubjectId(2)), Some(20));
    assert_eq!(l.subscribed(UserId(100)).to_vec(), ids(&[1]));
}

#[test]
fn reconnected_client_holds_what_a_connected_client_holds() {
    let mut l = ledger();
    let mut stayed = ClientSyncAdapter::new();
    stayed.resync(&l.remaining_for(None));
    let mut left = ClientSyncAdapter::new();
    left.resync(&l.remaining_for(None));
    let asked: Vec<(Option<UserId>, SubjectSet)> = vec![
        (ANN, set(&[1, 2])),
        (BOB, set(&[2, 4])),
        (None, set(&[3])),
        (ANN, set(&[2, 3])),
        (BOB, set(&[9])),
        (BOB, set(&[])),
        (ANN, set(&[2, 3])),
    ];
    for (student, target) in &asked {
        if let Ok(published) = register_subjects(&mut l, *student, target) {
            // `left` misses every publication.
            stayed.receive(&published);
        }
    }
    left.resync(&l.remaining_for(None));
    for i in 0..=9 {
        assert_eq!(stayed.server_count(SubjectId(i)), left.server_count(SubjectId(i)));
        assert_eq!(stayed.server_count(SubjectId(i)), l.remaining(SubjectId(i)));
    }
    assert_eq!(stayed.server_count(SubjectId(2)), Some(19));
    assert_eq!(stayed.server_count(SubjectId(3)), Some(29));
    assert_eq!(stayed.server_count(SubjectId(4)), Some(1));
}
