use trains_rs::bookings::{
    add_booking, edit_booking, list_bookings_for_passenger, remove_booking, BookingError,
    BookingList,
};
use trains_rs::passengers::{Passenger, PassengerList};
use trains_rs::times::Time;
use trains_rs::trains::{Train, TrainList};
use trains_rs::RegistryError;

fn train(line: u32, dep: &str, arr: &str) -> Train {
    Train::new(
        line,
        format!("Line {}", line),
        100,
        "Toronto".to_string(),
        "Hamilton".to_string(),
        Time::parse_hm(dep).unwrap(),
        Time::parse_hm(arr).unwrap(),
    )
}

fn setup() -> (BookingList, PassengerList, TrainList) {
    let bookings = BookingList::new();
    let mut passengers = PassengerList::new();
    let mut trains = TrainList::new();
    passengers.insert(
        "P1".to_string(),
        Passenger::new("P1".to_string(), "John Doe".to_string(), 30),
    );
    trains.insert(1, train(1, "11:00", "12:00"));
    (bookings, passengers, trains)
}

#[test]
fn scenario_add_booking_records_both_references() {
    let (mut bookings, mut passengers, mut trains) = setup();
    let r = add_booking(&mut bookings, &mut passengers, &mut trains, "P1".to_string(), 1);
    assert!(r.is_ok());
    assert!(bookings.contains_key("P1_1"));
    assert_eq!(
        passengers.get("P1").unwrap().bookings,
        vec!["P1_1".to_string()]
    );
    assert_eq!(trains.get(1).unwrap().passengers, vec!["P1".to_string()]);
}

#[test]
fn scenario_second_booking_same_line_conflicts() {
    let (mut bookings, mut passengers, mut trains) = setup();
    add_booking(&mut bookings, &mut passengers, &mut trains, "P1".to_string(), 1).unwrap();
    let r = add_booking(&mut bookings, &mut passengers, &mut trains, "P1".to_string(), 1);
    assert_eq!(r, Err(BookingError::SchedulingConflict(1)));
    assert_eq!(bookings.len(), 1);
}

#[test]
fn scenario_overlapping_times_conflict() {
    let (mut bookings, mut passengers, mut trains) = setup();
    trains.insert(2, train(2, "11:30", "12:30"));
    add_booking(&mut bookings, &mut passengers, &mut trains, "P1".to_string(), 1).unwrap();
    let r = add_booking(&mut bookings, &mut passengers, &mut trains, "P1".to_string(), 2);
    assert_eq!(r, Err(BookingError::SchedulingConflict(1)));
    assert_eq!(bookings.len(), 1);
    assert!(trains.get(2).unwrap().passengers.is_empty());
}

#[test]
fn scenario_remove_booking_empties_all_three() {
    let (mut bookings, mut passengers, mut trains) = setup();
    add_booking(&mut bookings, &mut passengers, &mut trains, "P1".to_string(), 1).unwrap();
    let r = remove_booking(&mut bookings, &mut passengers, &mut trains, "P1_1".to_string());
    assert!(r.is_ok());
    assert!(bookings.is_empty());
    assert!(passengers.get("P1").unwrap().bookings.is_empty());
    assert!(trains.get(1).unwrap().passengers.is_empty());
}

#[test]
fn scenario_unknown_passenger_mutates_nothing() {
    let (mut bookings, mut passengers, mut trains) = setup();
    let r = add_booking(&mut bookings, &mut passengers, &mut trains, "P9".to_string(), 1);
    assert_eq!(r, Err(BookingError::PassengerNotFound));
    assert!(bookings.is_empty());
    assert!(passengers.get("P1").unwrap().bookings.is_empty());
    assert!(trains.get(1).unwrap().passengers.is_empty());
}

#[test]
fn conflict_is_symmetric_across_booking_order() {
    // Trains 1 (11:00-12:00) and 2 (11:30-12:30) overlap: booking 1 then 2
    // fails, and booking 2 then 1 fails the same way.
    let (mut bookings, mut passengers, mut trains) = setup();
    trains.insert(2, train(2, "11:30", "12:30"));
    add_booking(&mut bookings, &mut passengers, &mut trains, "P1".to_string(), 1).unwrap();
    let first_order = add_booking(&mut bookings, &mut passengers, &mut trains, "P1".to_string(), 2);
    assert!(matches!(first_order, Err(BookingError::SchedulingConflict(_))));

    let (mut bookings, mut passengers, mut trains) = setup();
    trains.insert(2, train(2, "11:30", "12:30"));
    add_booking(&mut bookings, &mut passengers, &mut trains, "P1".to_string(), 2).unwrap();
    let second_order = add_booking(&mut bookings, &mut passengers, &mut trains, "P1".to_string(), 1);
    assert!(matches!(second_order, Err(BookingError::SchedulingConflict(_))));
}

#[test]
fn back_to_back_trains_do_not_conflict() {
    // Train 2 departs exactly when train 1 arrives: the boundary is
    // exclusive, so both bookings succeed, in either order.
    let (mut bookings, mut passengers, mut trains) = setup();
    trains.insert(2, train(2, "12:00", "13:00"));
    assert!(add_booking(&mut bookings, &mut passengers, &mut trains, "P1".to_string(), 1).is_ok());
    assert!(add_booking(&mut bookings, &mut passengers, &mut trains, "P1".to_string(), 2).is_ok());

    let (mut bookings, mut passengers, mut trains) = setup();
    trains.insert(2, train(2, "12:00", "13:00"));
    assert!(add_booking(&mut bookings, &mut passengers, &mut trains, "P1".to_string(), 2).is_ok());
    assert!(add_booking(&mut bookings, &mut passengers, &mut trains, "P1".to_string(), 1).is_ok());
    assert_eq!(bookings.len(), 2);
}

#[test]
fn add_booking_unknown_train_fails() {
    let (mut bookings, mut passengers, mut trains) = setup();
    let r = add_booking(&mut bookings, &mut passengers, &mut trains, "P1".to_string(), 99);
    assert_eq!(r, Err(BookingError::TrainNotFound));
    assert!(bookings.is_empty());
}

#[test]
fn remove_unknown_booking_fails() {
    let (mut bookings, mut passengers, mut trains) = setup();
    let r = remove_booking(&mut bookings, &mut passengers, &mut trains, "nope".to_string());
    assert_eq!(r, Err(BookingError::BookingNotFound));
}

#[test]
fn edit_unknown_booking_fails() {
    let (mut bookings, mut passengers, mut trains) = setup();
    let r = edit_booking(&mut bookings, &mut passengers, &mut trains, "nope".to_string(), 1);
    assert_eq!(r, Err(BookingError::BookingNotFound));
}

#[test]
fn edit_to_unknown_train_fails() {
    let (mut bookings, mut passengers, mut trains) = setup();
    add_booking(&mut bookings, &mut passengers, &mut trains, "P1".to_string(), 1).unwrap();
    let r = edit_booking(&mut bookings, &mut passengers, &mut trains, "P1_1".to_string(), 99);
    assert_eq!(r, Err(BookingError::TrainNotFound));
    assert_eq!(bookings.get("P1_1").unwrap().train_line, 1);
}

#[test]
fn edit_skips_the_booking_being_edited() {
    // Train 2 overlaps train 1, but the only existing booking is the one
    // being edited, so redirecting it to train 2 succeeds.
    let (mut bookings, mut passengers, mut trains) = setup();
    trains.insert(2, train(2, "11:30", "12:30"));
    add_booking(&mut bookings, &mut passengers, &mut trains, "P1".to_string(), 1).unwrap();
    let r = edit_booking(&mut bookings, &mut passengers, &mut trains, "P1_1".to_string(), 2);
    assert!(r.is_ok());
    assert_eq!(bookings.get("P1_1").unwrap().train_line, 2);
}

#[test]
fn edit_conflicting_with_another_booking_fails() {
    // P1 holds bookings on trains 1 (11:00-12:00) and 3 (14:00-15:00);
    // redirecting the train-3 booking to train 2 (11:30-12:30) would clash
    // with the train-1 booking.
    let (mut bookings, mut passengers, mut trains) = setup();
    trains.insert(2, train(2, "11:30", "12:30"));
    trains.insert(3, train(3, "14:00", "15:00"));
    add_booking(&mut bookings, &mut passengers, &mut trains, "P1".to_string(), 1).unwrap();
    add_booking(&mut bookings, &mut passengers, &mut trains, "P1".to_string(), 3).unwrap();
    let r = edit_booking(&mut bookings, &mut passengers, &mut trains, "P1_3".to_string(), 2);
    assert_eq!(r, Err(BookingError::SchedulingConflict(1)));
    assert_eq!(bookings.get("P1_3").unwrap().train_line, 3);
}

#[test]
fn booking_key_keeps_underscored_passenger_ids_apart() {
    let (mut bookings, mut passengers, mut trains) = setup();
    trains.insert(12, train(12, "18:00", "19:00"));
    passengers.insert(
        "A_1".to_string(),
        Passenger::new("A_1".to_string(), "Jane Doe".to_string(), 41),
    );
    let r = add_booking(&mut bookings, &mut passengers, &mut trains, "A_1".to_string(), 12);
    assert!(r.is_ok());
    assert!(bookings.contains_key("A_1_12"));
    assert_eq!(bookings.get("A_1_12").unwrap().passenger_id, "A_1");
}

#[test]
fn queries_distinguish_missing_from_empty() {
    let (mut bookings, mut passengers, mut trains) = setup();
    add_booking(&mut bookings, &mut passengers, &mut trains, "P1".to_string(), 1).unwrap();
    assert!(list_bookings_for_passenger(&passengers, "P9").is_none());
    passengers.insert(
        "P2".to_string(),
        Passenger::new("P2".to_string(), "Jane Doe".to_string(), 41),
    );
    assert_eq!(
        list_bookings_for_passenger(&passengers, "P2"),
        Some(Vec::new())
    );
    assert_eq!(
        list_bookings_for_passenger(&passengers, "P1"),
        Some(vec!["P1_1".to_string()])
    );
}

#[test]
fn query_results_repeat_without_mutation() {
    let (mut bookings, mut passengers, mut trains) = setup();
    add_booking(&mut bookings, &mut passengers, &mut trains, "P1".to_string(), 1).unwrap();
    let first = list_bookings_for_passenger(&passengers, "P1");
    let second = list_bookings_for_passenger(&passengers, "P1");
    assert_eq!(first, second);
    let on_train_first = trains_rs::bookings::list_passengers_on_train(&trains, 1);
    let on_train_second = trains_rs::bookings::list_passengers_on_train(&trains, 1);
    assert_eq!(on_train_first, on_train_second);
}

#[test]
fn parse_hm_reads_hours_and_minutes() {
    assert_eq!(Time::parse_hm("11:00").unwrap().seconds(), 11 * 3600);
    assert_eq!(Time::parse_hm("7:15").unwrap().seconds(), 7 * 3600 + 15 * 60);
    assert_eq!(Time::parse_hm("00:00").unwrap().seconds(), 0);
    assert_eq!(Time::parse_hm("23:59").unwrap().seconds(), 23 * 3600 + 59 * 60);
    assert!(Time::parse_hm("17:60").is_none());
    assert!(Time::parse_hm("24:00").is_none());
    assert!(Time::parse_hm("noon").is_none());
}

#[test]
fn from_hms_opt_checks_each_field() {
    assert_eq!(Time::from_hms_opt(9, 0, 0).unwrap().seconds(), 9 * 3600);
    assert_eq!(
        Time::from_hms_opt(23, 59, 59).unwrap().seconds(),
        23 * 3600 + 59 * 60 + 59
    );
    assert!(Time::from_hms_opt(24, 0, 0).is_none());
    assert!(Time::from_hms_opt(0, 60, 0).is_none());
    assert!(Time::from_hms_opt(0, 0, 60).is_none());
}

#[test]
fn registry_add_refuses_duplicate_keys() {
    let mut passengers = PassengerList::new();
    assert!(passengers
        .add(Passenger::new("P1".to_string(), "John Doe".to_string(), 30))
        .is_ok());
    assert_eq!(
        passengers.add(Passenger::new("P1".to_string(), "Jane Doe".to_string(), 41)),
        Err(RegistryError::DuplicateKey)
    );
    let mut trains = TrainList::new();
    assert!(trains.add(train(1, "11:00", "12:00")).is_ok());
    assert_eq!(
        trains.add(train(1, "13:00", "14:00")),
        Err(RegistryError::DuplicateKey)
    );
}
