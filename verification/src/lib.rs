//! Course registration: the selection a student is editing, with schedule
//! collisions, and the server's seat counts with the registration commit
//! that changes them.

pub mod class;
pub mod login;
pub mod registration;
pub mod timetable;
pub mod utils;
