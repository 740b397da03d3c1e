use trains_rs::bookings::{
    add_booking, edit_booking, list_all_bookings, list_bookings_for_passenger,
    list_passengers_on_train, remove_booking, BookingList,
};
use trains_rs::passengers::{Passenger, PassengerList};
use trains_rs::times::Time;
use trains_rs::trains::{Train, TrainList};

fn setup() -> (BookingList, PassengerList, TrainList) {
    let bookings = BookingList::new();
    let mut passengers = PassengerList::new();
    let mut trains = TrainList::new();

    passengers.insert(
        "P1".to_string(),
        Passenger {
            id: "P1".to_string(),
            name: "John Doe".to_string(),
            age: 30,
            bookings: Vec::new(),
        },
    );

    trains.insert(
        1,
        Train {
            line: 1,
            name: "Express".to_string(),
            capacity: 100,
            origin: "Toronto".to_string(),
            destination: "Hamilton".to_string(),
            departure: Time::parse_hm("11:00").unwrap(),
            arrival: Time::parse_hm("12:00").unwrap(),
            passengers: Vec::new(),
        },
    );

    (bookings, passengers, trains)
}

#[test]
fn bookings_test_add_booking() {
    let (mut bookings, mut passengers, mut trains) = setup();
    let result = add_booking(
        &mut bookings,
        &mut passengers,
        &mut trains,
        "P1".to_string(),
        1,
    );
    assert!(result.is_ok());
    assert_eq!(bookings.len(), 1);
    assert_eq!(passengers.get("P1").unwrap().bookings.len(), 1);
    assert_eq!(trains.get(1).unwrap().passengers.len(), 1);
}

#[test]
fn bookings_test_remove_booking() {
    let (mut bookings, mut passengers, mut trains) = setup();
    add_booking(
        &mut bookings,
        &mut passengers,
        &mut trains,
        "P1".to_string(),
        1,
    )
    .unwrap();
    let result = remove_booking(
        &mut bookings,
        &mut passengers,
        &mut trains,
        "P1_1".to_string(),
    );
    assert!(result.is_ok());
    assert!(bookings.is_empty());
    assert!(passengers.get("P1").unwrap().bookings.is_empty());
    assert!(trains.get(1).unwrap().passengers.is_empty());
}

#[test]
fn test_list_all_bookings() {
    let (mut bookings, mut passengers, mut trains) = setup();
    add_booking(
        &mut bookings,
        &mut passengers,
        &mut trains,
        "P1".to_string(),
        1,
    )
    .unwrap();
    let result = list_all_bookings(&bookings);
    assert_eq!(result.len(), 1);
    assert_eq!(result[0].id, "P1_1");
    assert_eq!(result[0].passenger_id, "P1");
    assert_eq!(result[0].train_line, 1);
}

#[test]
fn test_list_bookings_for_passenger() {
    let (mut bookings, mut passengers, mut trains) = setup();
    add_booking(
        &mut bookings,
        &mut passengers,
        &mut trains,
        "P1".to_string(),
        1,
    )
    .unwrap();
    let result = list_bookings_for_passenger(&passengers, "P1");
    assert!(result.is_some());
    assert_eq!(result.unwrap(), vec!["P1_1".to_string()]);
}

#[test]
fn test_list_passengers_on_train() {
    let (mut bookings, mut passengers, mut trains) = setup();
    add_booking(
        &mut bookings,
        &mut passengers,
        &mut trains,
        "P1".to_string(),
        1,
    )
    .unwrap();
    let result = list_passengers_on_train(&trains, 1);
    assert!(result.is_some());
    assert_eq!(result.unwrap(), vec!["P1".to_string()]);
}

#[test]
fn bookings_test_edit_booking() {
    let (mut bookings, mut passengers, mut trains) = setup();

    add_booking(
        &mut bookings,
        &mut passengers,
        &mut trains,
        "P1".to_string(),
        1,
    )
    .unwrap();

    trains.insert(
        2,
        Train {
            line: 2,
            name: "Local".to_string(),
            capacity: 100,
            origin: "Toronto".to_string(),
            destination: "Hamilton".to_string(),
            departure: Time::parse_hm("13:00").unwrap(),
            arrival: Time::parse_hm("15:00").unwrap(),
            passengers: Vec::new(),
        },
    );

    let result = edit_booking(
        &mut bookings,
        &mut passengers,
        &mut trains,
        "P1_1".to_string(),
        2,
    );

    assert!(result.is_ok());
    assert_eq!(bookings.get("P1_1").unwrap().train_line, 2);
}
