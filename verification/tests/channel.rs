use uni_web::class::{Building, Class, ClassId, DayOfWeek, Location, Section, Type, WeekParity};
use uni_web::registration::class_card::{extract_prof_name, sec_no, ClientSyncAdapter};
use uni_web::registration::rem_seats_ws::{
    Heartbeat, RemSeatsMsg, RemSeatsWs, SeatBroadcastChannel, WsAction, WsEvent, WsState,
};
use uni_web::registration::SubjectId;

fn msg(v: &[(i64, i64)]) -> RemSeatsMsg {
    RemSeatsMsg(v.iter().map(|&(i, n)| (SubjectId(i), n)).collect())
}

fn heartbeat() -> Heartbeat {
    Heartbeat::new(5_000, 12_000).unwrap()
}

fn open_connection() -> RemSeatsWs {
    let mut ws = RemSeatsWs::new(heartbeat(), 0);
    assert_eq!(ws.handle(0, WsEvent::Started), WsAction::Subscribe);
    assert_eq!(ws.handle(0, WsEvent::Snapshot(msg(&[(1, 2)]))), WsAction::Text("[[1,2]]".to_string()));
    ws
}

#[test]
fn message_is_written_as_a_json_list_of_pairs() {
    assert_eq!(msg(&[(1, 5), (22, -1), (-3, 0)]).to_json(), Some("[[1,5],[22,-1],[-3,0]]".to_string()));
    assert_eq!(msg(&[]).to_json(), Some("[]".to_string()));
    assert_eq!(
        msg(&[(i64::MAX, i64::MIN)]).to_json(),
        Some("[[9223372036854775807,-9223372036854775808]]".to_string())
    );
}

#[test]
fn message_is_read_from_a_json_list_of_pairs() {
    assert_eq!(RemSeatsMsg::from_json("[[1,5],[22,-1]]"), Some(msg(&[(1, 5), (22, -1)])));
    assert_eq!(RemSeatsMsg::from_json(" [ [ 7 , 0 ] ] "), Some(msg(&[(7, 0)])));
    assert_eq!(RemSeatsMsg::from_json("[]"), Some(msg(&[])));
    assert_eq!(RemSeatsMsg::from_json(""), None);
    assert_eq!(RemSeatsMsg::from_json("[[1,5]"), None);
    assert_eq!(RemSeatsMsg::from_json("[[1]]"), None);
    assert_eq!(RemSeatsMsg::from_json("[[1,2,3]]"), None);
    assert_eq!(RemSeatsMsg::from_json("[[1,\"5\"]]"), None);
    assert_eq!(RemSeatsMsg::from_json("[[1,9223372036854775808]]"), None);
    assert_eq!(RemSeatsMsg::from_json("{\"1\":5}"), None);
}

#[test]
fn message_survives_the_wire() {
    let m = msg(&[(4, 0), (1, 10), (4, -2)]);
    let text = m.to_json().unwrap();
    assert_eq!(RemSeatsMsg::from_json(&text), Some(m.clone()));
    assert_eq!(m.to_raw(), vec![(4, 0), (1, 10), (4, -2)]);
    assert_eq!(RemSeatsMsg::from_raw(vec![(4, 0), (1, 10), (4, -2)]), m);
}

#[test]
fn heartbeat_needs_a_timeout_of_more_than_two_intervals() {
    assert!(Heartbeat::new(5, 11).is_some());
    assert!(Heartbeat::new(5, 10).is_none());
    assert!(Heartbeat::new(5, 0).is_none());
    assert!(Heartbeat::new(0, 10).is_none());
    assert!(Heartbeat::new(u64::MAX / 2, u64::MAX).is_some());
    assert!(Heartbeat::new(u64::MAX / 2 + 1, u64::MAX).is_none());
    assert!(Heartbeat::new(u64::MAX, u64::MAX).is_none());
    let hb = heartbeat();
    assert_eq!(hb.interval(), 5_000);
    assert_eq!(hb.timeout(), 12_000);
}

#[test]
fn connection_subscribes_then_sends_the_snapshot_before_any_publication() {
    let mut ws = RemSeatsWs::new(heartbeat(), 10);
    assert_eq!(ws.state(), WsState::New);
    // Nothing is sent before the connection has started.
    assert_eq!(ws.handle(10, WsEvent::Publish(msg(&[(1, 1)]))), WsAction::Nothing);
    assert_eq!(ws.handle(10, WsEvent::Tick), WsAction::Nothing);
    assert_eq!(ws.handle(11, WsEvent::Started), WsAction::Subscribe);
    assert_eq!(ws.state(), WsState::Syncing);
    // A publication that comes before the snapshot is not passed on.
    assert_eq!(ws.handle(12, WsEvent::Publish(msg(&[(1, 1)]))), WsAction::Nothing);
    assert_eq!(
        ws.handle(13, WsEvent::Snapshot(msg(&[(1, 0), (2, 7)]))),
        WsAction::Text("[[1,0],[2,7]]".to_string())
    );
    assert_eq!(ws.state(), WsState::Open);
    assert_eq!(ws.handle(14, WsEvent::Publish(msg(&[(2, 6)]))), WsAction::Text("[[2,6]]".to_string()));
    // A second snapshot is not sent.
    assert_eq!(ws.handle(15, WsEvent::Snapshot(msg(&[(1, 0)]))), WsAction::Nothing);
    assert_eq!(ws.handle(15, WsEvent::Started), WsAction::Nothing);
    assert_eq!(ws.handle(15, WsEvent::Other), WsAction::Nothing);
    assert_eq!(ws.state(), WsState::Open);
}

#[test]
fn ping_is_answered_with_its_payload() {
    let mut ws = open_connection();
    assert_eq!(ws.handle(100, WsEvent::Ping(vec![1, 2, 3])), WsAction::Pong(vec![1, 2, 3]));
    assert_eq!(ws.handle(100, WsEvent::Ping(vec![])), WsAction::Pong(vec![]));
}

#[test]
fn close_is_confirmed_and_nothing_is_sent_afterwards() {
    let mut ws = open_connection();
    assert_eq!(ws.handle(100, WsEvent::Close), WsAction::Close);
    assert_eq!(ws.state(), WsState::Closed);
    assert_eq!(ws.handle(101, WsEvent::Publish(msg(&[(1, 1)]))), WsAction::Nothing);
    assert_eq!(ws.handle(102, WsEvent::Ping(vec![9])), WsAction::Nothing);
    assert_eq!(ws.handle(103, WsEvent::Tick), WsAction::Nothing);
    assert_eq!(ws.handle(104, WsEvent::Close), WsAction::Nothing);
    assert_eq!(ws.handle(105, WsEvent::Started), WsAction::Nothing);
    assert_eq!(ws.state(), WsState::Closed);
}

#[test]
fn client_is_pinged_at_each_interval() {
    let mut ws = open_connection();
    assert_eq!(ws.handle(4_999, WsEvent::Tick), WsAction::Nothing);
    assert_eq!(ws.handle(5_000, WsEvent::Tick), WsAction::Ping);
    assert_eq!(ws.handle(5_001, WsEvent::Pong), WsAction::Nothing);
    assert_eq!(ws.handle(9_999, WsEvent::Tick), WsAction::Nothing);
    assert_eq!(ws.handle(10_000, WsEvent::Tick), WsAction::Ping);
}

#[test]
fn one_missed_ping_does_not_close_the_connection() {
    let mut ws = open_connection();
    assert_eq!(ws.handle(5_000, WsEvent::Tick), WsAction::Ping);
    // No pong. Two intervals after the client was last heard it is pinged again, not stopped.
    assert_eq!(ws.handle(10_000, WsEvent::Tick), WsAction::Ping);
    assert_eq!(ws.state(), WsState::Open);
    assert_eq!(ws.handle(12_000, WsEvent::Tick), WsAction::Nothing);
    assert_eq!(ws.handle(12_000, WsEvent::Pong), WsAction::Nothing);
    assert_eq!(ws.handle(24_000, WsEvent::Tick), WsAction::Ping);
    assert_eq!(ws.state(), WsState::Open);
}

#[test]
fn silent_client_is_stopped_after_the_timeout() {
    let mut ws = open_connection();
    assert_eq!(ws.handle(5_000, WsEvent::Tick), WsAction::Ping);
    assert_eq!(ws.handle(10_000, WsEvent::Tick), WsAction::Ping);
    assert_eq!(ws.handle(12_001, WsEvent::Tick), WsAction::Stop);
    assert_eq!(ws.state(), WsState::Closed);
    assert_eq!(ws.handle(12_002, WsEvent::Pong), WsAction::Nothing);
    assert_eq!(ws.state(), WsState::Closed);
}

#[test]
fn clock_that_goes_back_counts_as_no_time_passed() {
    let mut ws = RemSeatsWs::new(heartbeat(), 50_000);
    assert_eq!(ws.handle(50_000, WsEvent::Started), WsAction::Subscribe);
    assert_eq!(ws.handle(10, WsEvent::Tick), WsAction::Nothing);
    assert_eq!(ws.state(), WsState::Syncing);
}

#[test]
fn channel_hands_each_publication_to_every_connected_client() {
    let mut ch = SeatBroadcastChannel::new();
    assert_eq!(ch.subscribers(), 0);
    let a = ch.connect(msg(&[(1, 10)])).unwrap();
    ch.publish(&msg(&[(1, 9)]));
    let b = ch.connect(msg(&[(1, 9)])).unwrap();
    assert_ne!(a, b);
    assert_eq!(ch.subscribers(), 2);
    ch.publish(&msg(&[(1, 8)]));
    assert_eq!(ch.poll(a), vec![msg(&[(1, 10)]), msg(&[(1, 9)]), msg(&[(1, 8)])]);
    assert_eq!(ch.poll(a), vec![]);
    assert_eq!(ch.poll(b), vec![msg(&[(1, 9)]), msg(&[(1, 8)])]);
    ch.publish(&msg(&[(2, 0)]));
    assert_eq!(ch.poll(b), vec![msg(&[(2, 0)])]);
    assert_eq!(ch.poll(a), vec![msg(&[(2, 0)])]);
}

#[test]
fn disconnected_client_loses_what_waited_and_resyncs_by_snapshot() {
    let mut ch = SeatBroadcastChannel::new();
    let stayed = ch.connect(msg(&[(1, 10), (2, 5)])).unwrap();
    let gone = ch.connect(msg(&[(1, 10), (2, 5)])).unwrap();
    let mut a = ClientSyncAdapter::new();
    let mut b = ClientSyncAdapter::new();
    for m in ch.poll(gone) {
        b.receive(&m);
    }
    ch.publish(&msg(&[(1, 9)]));
    assert!(ch.is_open(gone));
    assert!(ch.disconnect(gone));
    assert!(!ch.is_open(gone));
    assert!(!ch.disconnect(gone));
    assert_eq!(ch.poll(gone), vec![]);
    ch.publish(&msg(&[(2, 4)]));
    ch.publish(&msg(&[(1, 8)]));
    // The client connects anew and gets the snapshot of that moment.
    let back = ch.connect(msg(&[(1, 8), (2, 4)])).unwrap();
    assert_ne!(back, gone);
    for m in ch.poll(back) {
        b.resync(&m);
    }
    for m in ch.poll(stayed) {
        a.receive(&m);
    }
    assert_eq!(a.server_count(SubjectId(1)), Some(8));
    assert_eq!(a.server_count(SubjectId(2)), Some(4));
    assert_eq!(b.server_count(SubjectId(1)), Some(8));
    assert_eq!(b.server_count(SubjectId(2)), Some(4));
    assert_eq!(ch.subscribers(), 2);
}

#[test]
fn card_shows_the_server_count_adjusted_by_the_pending_choice() {
    let id = SubjectId(1);
    let mut seats = ClientSyncAdapter::new();
    // Nothing heard yet: 0.
    assert_eq!(seats.server_count(id), None);
    assert_eq!(seats.rem_seats(id, false, false), 0);
    seats.receive(&msg(&[(1, 10), (2, 0)]));
    assert_eq!(seats.rem_seats(id, false, false), 10);
    // The student selects the subject: one seat less.
    seats.local_toggle(id);
    assert_eq!(seats.rem_seats(id, true, true), 9);
    // And deselects it again: back to what the server said.
    seats.local_toggle(id);
    assert_eq!(seats.rem_seats(id, false, false), 10);
    // A saved subject that the student deselects: one seat more.
    assert_eq!(seats.rem_seats(id, false, true), 11);
    // Another subject is not adjusted.
    assert_eq!(seats.rem_seats(SubjectId(2), true, true), 0);
}

#[test]
fn broadcast_for_a_subject_wins_over_the_pending_choice() {
    let id = SubjectId(1);
    let mut seats = ClientSyncAdapter::new();
    seats.resync(&msg(&[(1, 10), (2, 3)]));
    seats.local_toggle(id);
    seats.local_toggle(SubjectId(2));
    assert_eq!(seats.rem_seats(id, true, true), 9);
    seats.receive(&msg(&[(1, 7)]));
    assert_eq!(seats.rem_seats(id, true, true), 7);
    // The other subject is still adjusted.
    assert_eq!(seats.rem_seats(SubjectId(2), true, true), 2);
    // A later switch is adjusted again.
    seats.local_toggle(id);
    assert_eq!(seats.rem_seats(id, true, true), 6);
}

#[test]
fn save_or_discard_shows_the_exact_server_count() {
    let id = SubjectId(1);
    let mut seats = ClientSyncAdapter::new();
    seats.resync(&msg(&[(1, 10)]));
    seats.local_toggle(id);
    assert_eq!(seats.rem_seats(id, true, true), 9);
    seats.resolve();
    assert_eq!(seats.rem_seats(id, true, true), 10);
    assert_eq!(seats.rem_seats(id, true, false), 10);
}

#[test]
fn shown_seats_are_cut_to_what_can_be_shown() {
    let mut seats = ClientSyncAdapter::new();
    seats.resync(&msg(&[(1, 0), (2, -3), (3, i64::MAX), (4, u32::MAX as i64), (5, i64::MIN), (6, -1)]));
    for i in 1..=6 {
        seats.local_toggle(SubjectId(i));
    }
    assert_eq!(seats.rem_seats(SubjectId(1), true, true), 0);
    assert_eq!(seats.rem_seats(SubjectId(1), false, true), 1);
    assert_eq!(seats.rem_seats(SubjectId(2), false, true), 0);
    assert_eq!(seats.rem_seats(SubjectId(2), false, false), 0);
    assert_eq!(seats.rem_seats(SubjectId(3), false, true), u32::MAX);
    assert_eq!(seats.rem_seats(SubjectId(3), true, true), u32::MAX);
    assert_eq!(seats.rem_seats(SubjectId(4), false, true), u32::MAX);
    assert_eq!(seats.rem_seats(SubjectId(4), true, true), u32::MAX - 1);
    assert_eq!(seats.rem_seats(SubjectId(5), true, true), 0);
    assert_eq!(seats.rem_seats(SubjectId(6), false, true), 0);
}

#[test]
fn text_from_the_wire_updates_the_counts() {
    let mut seats = ClientSyncAdapter::new();
    assert!(seats.receive_text("[[1,4],[2,6]]"));
    assert_eq!(seats.server_count(SubjectId(1)), Some(4));
    assert_eq!(seats.server_count(SubjectId(2)), Some(6));
    seats.local_toggle(SubjectId(1));
    assert!(!seats.receive_text("not json"));
    assert_eq!(seats.server_count(SubjectId(1)), Some(4));
    assert_eq!(seats.rem_seats(SubjectId(1), true, true), 3);
    assert!(seats.receive_text("[[1,3],[1,2]]"));
    // The later pair of a message stays.
    assert_eq!(seats.server_count(SubjectId(1)), Some(2));
    assert_eq!(seats.rem_seats(SubjectId(1), true, true), 2);
}

fn class(ctype: Type) -> Class {
    Class {
        id: ClassId(1),
        ctype,
        code: "C".to_string(),
        name: "N".to_string(),
        location: Location { building: Building::Mechanics, floor: 2, room: "R".to_string() },
        day: DayOfWeek::Sunday,
        period: (0, 0),
    }
}

#[test]
fn professor_and_section_of_a_card() {
    let lec = class(Type::Lecture { prof: "Dr. Who".to_string() });
    let tut = class(Type::Tutorial { sec_no: Section::Two, week_parity: WeekParity::Both });
    let lab = class(Type::Lab { sec_no: Section::One, week_parity: WeekParity::Odd });
    assert_eq!(extract_prof_name(&lec), "Dr. Who");
    assert_eq!(extract_prof_name(&lab), "");
    assert_eq!(sec_no(&Some(tut.clone()), &Some(lab.clone())), Some(Section::Two));
    assert_eq!(sec_no(&None, &Some(lab.clone())), Some(Section::One));
    assert_eq!(sec_no(&Some(tut.clone()), &None), Some(Section::Two));
    assert_eq!(sec_no(&None, &None), None);
    // A lecture in the tutorial's place has no section: the lab's counts.
    assert_eq!(sec_no(&Some(lec.clone()), &Some(lab.clone())), Some(Section::One));
    assert_eq!(sec_no(&Some(lec.clone()), &None), None);
}
