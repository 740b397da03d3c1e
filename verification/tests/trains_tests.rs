use trains_rs::times::Time;
use trains_rs::trains::{Train, TrainList};

#[test]
fn test_manage_trains_add() {
    let mut trains = TrainList::new();
    let train = Train::new(
        1,
        "Express".to_string(),
        100,
        "City A".to_string(),
        "City B".to_string(),
        Time::from_hms_opt(9, 0, 0).unwrap(),
        Time::from_hms_opt(12, 0, 0).unwrap(),
    );

    let line = train.line;
    trains.insert(line, train);

    assert_eq!(trains.len(), 1);
    assert!(trains.contains_key(1));
}

#[test]
fn test_manage_trains_remove() {
    let mut trains = TrainList::new();
    let train = Train::new(
        1,
        "Express".to_string(),
        100,
        "City A".to_string(),
        "City B".to_string(),
        Time::from_hms_opt(9, 0, 0).unwrap(),
        Time::from_hms_opt(12, 0, 0).unwrap(),
    );

    let line = train.line;
    trains.insert(line, train);
    trains.remove(1);

    assert_eq!(trains.len(), 0);
    assert!(!trains.contains_key(1));
}

#[test]
fn test_manage_trains_list() {
    let mut trains = TrainList::new();
    let train = Train::new(
        1,
        "Express".to_string(),
        100,
        "City A".to_string(),
        "City B".to_string(),
        Time::from_hms_opt(9, 0, 0).unwrap(),
        Time::from_hms_opt(12, 0, 0).unwrap(),
    );

    let line = train.line;
    trains.insert(line, train);

    assert_eq!(trains.len(), 1);
    assert!(trains.contains_key(1));
}

#[test]
fn test_edit_train() {
    let mut trains = TrainList::new();
    let train = Train::new(
        1,
        "Express".to_string(),
        100,
        "City A".to_string(),
        "City B".to_string(),
        Time::from_hms_opt(9, 0, 0).unwrap(),
        Time::from_hms_opt(12, 0, 0).unwrap(),
    );

    let line = train.line;
    trains.insert(line, train);

    let found = trains.update_train(
        1,
        "Super Express".to_string(),
        200,
        "City X".to_string(),
        "City Y".to_string(),
        Time::from_hms_opt(10, 0, 0).unwrap(),
        Time::from_hms_opt(13, 0, 0).unwrap(),
    );
    assert!(found);

    let edited_train = trains.get(1).unwrap();
    assert_eq!(edited_train.name, "Super Express");
    assert_eq!(edited_train.capacity, 200);
    assert_eq!(edited_train.origin, "City X");
    assert_eq!(edited_train.destination, "City Y");
    assert_eq!(edited_train.departure, Time::from_hms_opt(10, 0, 0).unwrap());
    assert_eq!(edited_train.arrival, Time::from_hms_opt(13, 0, 0).unwrap());
}
