use flight_booking::engine::{
    ClientAddr, EngineError, Flight, FlightController, FlightUpdate, Request, Response,
};

fn flight(id: i32, source: &str, destination: &str, seats: i32) -> Flight {
    Flight {
        flight_id: id,
        source: source.to_string(),
        destination: destination.to_string(),
        departure_time: 1_725_012_000,
        airfare: 20_000,
        seats_available: seats,
    }
}

fn scenario_controller() -> FlightController {
    let mut c = FlightController::new();
    c.add_flight(flight(0, "New York", "London", 50));
    c.add_flight(flight(1, "New York", "London", 100));
    c
}

fn seats(c: &FlightController, id: i32) -> i32 {
    c.flights().iter().find(|f| f.flight_id == id).unwrap().seats_available
}

const ADDR: ClientAddr = ClientAddr { ip: 0x7f00_0001, port: 4000 };

#[test]
fn scenario_query_reserve_monitor() {
    let mut c = scenario_controller();
    let (r, pushes) = c.handle_request(
        Request::QueryFlightIds { source: "New York".to_string(), destination: "London".to_string() },
        0,
        None,
    );
    assert!(matches!(r, Response::FlightIds(ref ids) if *ids == vec![0, 1]));
    assert!(pushes.is_empty());

    let (r, _) = c.handle_request(Request::ReserveSeats { flight_id: 1, seats: 2 }, 0, None);
    assert!(matches!(r, Response::Reservation(Ok(()))));
    assert_eq!(seats(&c, 1), 98);

    let (r, _) = c.handle_request(Request::ReserveSeats { flight_id: 1, seats: 999 }, 0, None);
    assert!(matches!(r, Response::Reservation(Err(ref m)) if m == "Not enough seats available"));
    assert_eq!(seats(&c, 1), 98);

    let (r, _) = c.handle_request(Request::MonitorFlight { flight_id: 1, monitor_interval: 1 }, 0, Some(ADDR));
    assert!(matches!(r, Response::MonitoringStarted(Ok(()))));

    let (r, pushes) = c.handle_request(Request::ReserveSeats { flight_id: 1, seats: 2 }, 500, None);
    assert!(matches!(r, Response::Reservation(Ok(()))));
    assert_eq!(pushes, vec![(ADDR, FlightUpdate { flight_id: 1, seats_available: 96 })]);

    let (r, pushes) = c.handle_request(Request::ReserveSeats { flight_id: 1, seats: 2 }, 1_001, None);
    assert!(matches!(r, Response::Reservation(Ok(()))));
    assert!(pushes.is_empty());
    assert_eq!(seats(&c, 1), 94);
}

#[test]
fn subscription_expires_at_its_instant() {
    let mut c = scenario_controller();
    c.handle_request(Request::MonitorFlight { flight_id: 0, monitor_interval: 1 }, 0, Some(ADDR));
    let (_, pushes) = c.handle_request(Request::ReserveSeats { flight_id: 0, seats: 1 }, 999, None);
    assert_eq!(pushes.len(), 1);
    let (_, pushes) = c.handle_request(Request::ReserveSeats { flight_id: 0, seats: 1 }, 1_000, None);
    assert!(pushes.is_empty());
}

#[test]
fn no_matching_flights_is_an_error() {
    let mut c = scenario_controller();
    let (r, _) = c.handle_request(
        Request::QueryFlightIds { source: "new york".to_string(), destination: "London".to_string() },
        0,
        None,
    );
    assert!(matches!(r, Response::Error(ref m) if m == "No matching flights found"));
}

#[test]
fn details_of_known_and_unknown_flights() {
    let mut c = scenario_controller();
    let (r, _) = c.handle_request(Request::QueryFlightDetails { flight_id: 0 }, 0, None);
    assert!(matches!(
        r,
        Response::FlightDetails {
            departure_time: Some(1_725_012_000),
            airfare: Some(20_000),
            seats_available: Some(50)
        }
    ));
    let (r, _) = c.handle_request(Request::QueryFlightDetails { flight_id: 9 }, 0, None);
    assert!(matches!(r, Response::Error(ref m) if m == "Flight not found"));
}

#[test]
fn reserve_errors() {
    let mut c = scenario_controller();
    assert_eq!(c.reserve_seats(9, 1), Err(EngineError::FlightNotFound));
    assert_eq!(c.reserve_seats(0, -1), Err(EngineError::InvalidSeatCount));
    assert_eq!(c.reserve_seats(0, 51), Err(EngineError::NotEnoughSeats));
    assert_eq!(c.reserve_seats(0, 50), Ok(()));
    assert_eq!(seats(&c, 0), 0);
    assert_eq!(c.reserve_seats(0, 1), Err(EngineError::NotEnoughSeats));
    assert_eq!(EngineError::FlightNotFound.message(), "Flight not found");
}

#[test]
fn zero_seats_succeeds_without_push() {
    let mut c = scenario_controller();
    c.handle_request(Request::MonitorFlight { flight_id: 0, monitor_interval: 10 }, 0, Some(ADDR));
    let (r, pushes) = c.handle_request(Request::ReserveSeats { flight_id: 0, seats: 0 }, 1, None);
    assert!(matches!(r, Response::Reservation(Ok(()))));
    assert!(pushes.is_empty());
    assert_eq!(seats(&c, 0), 50);
}

#[test]
fn monitoring_errors() {
    let mut c = scenario_controller();
    assert_eq!(c.start_monitoring(9, 5, ADDR, 0), Err(EngineError::FlightNotFound));
    assert_eq!(c.start_monitoring(0, -5, ADDR, 0), Err(EngineError::InvalidInterval));
    let (r, _) = c.handle_request(Request::MonitorFlight { flight_id: 9, monitor_interval: 1 }, 0, Some(ADDR));
    assert!(matches!(r, Response::MonitoringStarted(Err(ref m)) if m == "Flight not found"));
}

#[test]
fn same_subscription_is_held_once_but_other_intervals_add() {
    let mut c = scenario_controller();
    c.start_monitoring(0, 5, ADDR, 0).unwrap();
    c.start_monitoring(0, 5, ADDR, 0).unwrap();
    assert_eq!(c.prepare_monitoring_updates(0).len(), 1);
    c.start_monitoring(0, 6, ADDR, 0).unwrap();
    assert_eq!(c.prepare_monitoring_updates(0).len(), 2);
    assert!(c.prepare_monitoring_updates(9).is_empty());
}

#[test]
fn cleaning_drops_only_expired() {
    let mut c = scenario_controller();
    c.start_monitoring(0, 1, ADDR, 0).unwrap();
    c.start_monitoring(1, 3, ADDR, 0).unwrap();
    c.clean_expired_monitors(2_000);
    assert!(c.prepare_monitoring_updates(0).is_empty());
    assert_eq!(c.prepare_monitoring_updates(1).len(), 1);
}

#[test]
fn adding_a_known_id_replaces_the_flight() {
    let mut c = scenario_controller();
    c.add_flight(flight(0, "Paris", "Rome", 7));
    assert_eq!(c.flights().len(), 2);
    assert_eq!(seats(&c, 0), 7);
    assert_eq!(c.query_flight_ids("Paris", "Rome"), vec![0]);
    assert_eq!(c.query_flight_details(0), Some((1_725_012_000, 20_000, 7)));
    assert_eq!(c.query_flight_details(5), None);
}

#[test]
fn seats_never_negative_over_many_reservations() {
    let mut c = scenario_controller();
    for n in [30, 30, 20, 5, 1, 0, 7] {
        let before = seats(&c, 0);
        match c.reserve_seats(0, n) {
            Ok(()) => assert_eq!(seats(&c, 0), before - n),
            Err(_) => assert_eq!(seats(&c, 0), before),
        }
        assert!(seats(&c, 0) >= 0);
    }
    assert_eq!(seats(&c, 0), 0);
}
