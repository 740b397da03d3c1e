use trains_rs::bookings::{add_booking, edit_booking, remove_booking, BookingList};
use trains_rs::passengers::{Passenger, PassengerList};
use trains_rs::times::Time;
use trains_rs::trains::{Train, TrainList};

#[test]
fn bookings_tests_test_add_booking() {
    let mut passengers = PassengerList::new();
    let mut trains = TrainList::new();
    let mut bookings = BookingList::new();

    let passenger = Passenger::new("1".to_string(), "John Doe".to_string(), 30);
    passengers.insert(passenger.id.clone(), passenger);

    let train = Train::new(
        1,
        "Express".to_string(),
        100,
        "City A".to_string(),
        "City B".to_string(),
        Time::from_hms_opt(9, 0, 0).unwrap(),
        Time::from_hms_opt(12, 0, 0).unwrap(),
    );
    let line = train.line;
    trains.insert(line, train);

    let result = add_booking(
        &mut bookings,
        &mut passengers,
        &mut trains,
        "1".to_string(),
        1,
    );
    assert!(result.is_ok());

    let booking_id = "1_1".to_string();
    assert!(bookings.contains_key(&booking_id));
    assert!(passengers.get("1").unwrap().bookings.contains(&booking_id));
    assert!(trains.get(1).unwrap().passengers.contains(&"1".to_string()));
}

#[test]
fn bookings_tests_test_edit_booking() {
    let mut passengers = PassengerList::new();
    let mut trains = TrainList::new();
    let mut bookings = BookingList::new();

    let passenger = Passenger::new("1".to_string(), "John Doe".to_string(), 30);
    passengers.insert(passenger.id.clone(), passenger);

    let train1 = Train::new(
        1,
        "Express".to_string(),
        100,
        "City A".to_string(),
        "City B".to_string(),
        Time::from_hms_opt(9, 0, 0).unwrap(),
        Time::from_hms_opt(12, 0, 0).unwrap(),
    );
    let line1 = train1.line;
    trains.insert(line1, train1);

    let train2 = Train::new(
        2,
        "Super Express".to_string(),
        100,
        "City C".to_string(),
        "City D".to_string(),
        Time::from_hms_opt(13, 0, 0).unwrap(),
        Time::from_hms_opt(16, 0, 0).unwrap(),
    );
    let line2 = train2.line;
    trains.insert(line2, train2);

    add_booking(
        &mut bookings,
        &mut passengers,
        &mut trains,
        "1".to_string(),
        1,
    )
    .unwrap();

    let result = edit_booking(
        &mut bookings,
        &mut passengers,
        &mut trains,
        "1_1".to_string(),
        2,
    );
    assert!(result.is_ok());

    let booking = bookings.get("1_1").unwrap();
    assert_eq!(booking.train_line, 2);
}

#[test]
fn bookings_tests_test_remove_booking() {
    let mut passengers = PassengerList::new();
    let mut trains = TrainList::new();
    let mut bookings = BookingList::new();

    let passenger = Passenger::new("1".to_string(), "John Doe".to_string(), 30);
    passengers.insert(passenger.id.clone(), passenger);

    let train = Train::new(
        1,
        "Express".to_string(),
        100,
        "City A".to_string(),
        "City B".to_string(),
        Time::from_hms_opt(9, 0, 0).unwrap(),
        Time::from_hms_opt(12, 0, 0).unwrap(),
    );
    let line = train.line;
    trains.insert(line, train);

    add_booking(
        &mut bookings,
        &mut passengers,
        &mut trains,
        "1".to_string(),
        1,
    )
    .unwrap();

    let result = remove_booking(
        &mut bookings,
        &mut passengers,
        &mut trains,
        "1_1".to_string(),
    );
    assert!(result.is_ok());

    let booking_id = "1_1".to_string();
    assert!(!bookings.contains_key(&booking_id));
    assert!(!passengers.get("1").unwrap().bookings.contains(&booking_id));
    assert!(!trains.get(1).unwrap().passengers.contains(&"1".to_string()));
}
