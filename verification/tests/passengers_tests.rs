use trains_rs::passengers::{Passenger, PassengerList};

#[test]
fn test_create_passenger() {
    let passenger = Passenger::new("1".to_string(), "John Doe".to_string(), 30);

    assert_eq!(passenger.id, "1");
    assert_eq!(passenger.name, "John Doe");
    assert_eq!(passenger.age, 30);
}

#[test]
fn test_manage_passengers_add() {
    let mut passengers = PassengerList::new();
    let passenger = Passenger::new("1".to_string(), "John Doe".to_string(), 30);

    passengers.insert(passenger.id.clone(), passenger);

    assert_eq!(passengers.len(), 1);
    assert!(passengers.contains_key("1"));
}

#[test]
fn test_manage_passengers_remove() {
    let mut passengers = PassengerList::new();
    let passenger = Passenger::new("1".to_string(), "John Doe".to_string(), 30);

    passengers.insert(passenger.id.clone(), passenger);
    passengers.remove("1");

    assert_eq!(passengers.len(), 0);
    assert!(!passengers.contains_key("1"));
}

#[test]
fn test_manage_passengers_list() {
    let mut passengers = PassengerList::new();
    let passenger = Passenger::new("1".to_string(), "John Doe".to_string(), 30);

    passengers.insert(passenger.id.clone(), passenger);

    assert_eq!(passengers.len(), 1);
    assert!(passengers.contains_key("1"));
}

#[test]
fn test_edit_passenger() {
    let mut passengers = PassengerList::new();
    let passenger = Passenger::new("1".to_string(), "John Doe".to_string(), 30);

    passengers.insert(passenger.id.clone(), passenger);

    let found = passengers.update_passenger("1", "Jane Doe".to_string(), 35);
    assert!(found);

    let edited_passenger = passengers.get("1").unwrap();
    assert_eq!(edited_passenger.name, "Jane Doe");
    assert_eq!(edited_passenger.age, 35);
}
