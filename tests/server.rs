use flight_booking::client::{
    after_timeout, decode_reply, parse_fare, request_message, response_from_reply, split_ids,
    RetryAction,
};
use flight_booking::codec::{encode_value, ByteOrder, Value};
use flight_booking::dispatch::{fare_to_text, join_ids, push_message, reply_message};
use flight_booking::engine::{ClientAddr, Flight, FlightController, FlightUpdate, Request, Response};
use flight_booking::server::Server;

const SRC: ClientAddr = ClientAddr { ip: 0x7f00_0001, port: 5000 };

fn server() -> Server {
    let mut c = FlightController::new();
    c.add_flight(Flight {
        flight_id: 0,
        source: "New York".to_string(),
        destination: "London".to_string(),
        departure_time: 1_725_012_000,
        airfare: 20_000,
        seats_available: 50,
    });
    c.add_flight(Flight {
        flight_id: 1,
        source: "New York".to_string(),
        destination: "London".to_string(),
        departure_time: 1_725_184_800,
        airfare: 50_050,
        seats_available: 100,
    });
    Server::new(c)
}

fn message(request: &Request, id: &str, semantic: &str) -> Vec<u8> {
    request_message(request, &id.to_string(), &semantic.to_string()).unwrap()
}

fn seats(s: &Server, id: i32) -> i32 {
    s.controller.flights().iter().find(|f| f.flight_id == id).unwrap().seats_available
}

fn field(fields: &[(String, String)], key: &str) -> Option<String> {
    fields.iter().rev().find(|p| p.0 == key).map(|p| p.1.clone())
}

#[test]
fn at_most_once_replay_is_answered_from_the_store() {
    let mut s = server();
    let bytes = message(&Request::ReserveSeats { flight_id: 1, seats: 1 }, "42", "at-most-once");
    let first = s.serve(&bytes, SRC, 0, 100).unwrap();
    assert!(!first.from_cache);
    assert_eq!(seats(&s, 1), 99);
    for _ in 0..3 {
        let again = s.serve(&bytes, SRC, 10, 200).unwrap();
        assert!(again.from_cache);
        assert_eq!(again.response, first.response);
    }
    assert_eq!(seats(&s, 1), 99);
    assert_eq!(s.store.len(), 1);
    assert_eq!(s.store[0].1.timestamp, 100);
}

#[test]
fn at_least_once_replay_is_applied_again() {
    let mut s = server();
    let bytes = message(&Request::ReserveSeats { flight_id: 1, seats: 1 }, "43", "at-least-once");
    let first = s.serve(&bytes, SRC, 0, 100).unwrap();
    let second = s.serve(&bytes, SRC, 0, 100).unwrap();
    assert!(!first.from_cache && !second.from_cache);
    assert_eq!(seats(&s, 1), 98);
}

#[test]
fn reply_carries_status_and_request_id() {
    let mut s = server();
    let bytes = message(
        &Request::QueryFlightIds { source: "New York".to_string(), destination: "London".to_string() },
        "7",
        "at-least-once",
    );
    let reply = s.serve(&bytes, SRC, 0, 0).unwrap();
    let fields = decode_reply(&reply.response.unwrap()).unwrap();
    assert_eq!(field(&fields, "status").unwrap(), "200");
    assert_eq!(field(&fields, "flight_ids").unwrap(), "0,1");
    assert_eq!(field(&fields, "request_id").unwrap(), "7");
    let request = Request::QueryFlightIds { source: String::new(), destination: String::new() };
    let r = response_from_reply(&request, &fields).unwrap();
    assert!(matches!(r, Response::FlightIds(ref ids) if *ids == vec![0, 1]));
}

#[test]
fn details_reply_round_trips_through_the_client() {
    let mut s = server();
    let request = Request::QueryFlightDetails { flight_id: 1 };
    let reply = s.serve(&message(&request, "8", "at-most-once"), SRC, 0, 0).unwrap();
    let fields = decode_reply(&reply.response.unwrap()).unwrap();
    assert_eq!(field(&fields, "departure_time").unwrap(), "2024-09-01 10:00:00");
    assert_eq!(field(&fields, "airfare").unwrap(), "500.5");
    assert_eq!(field(&fields, "seats_available").unwrap(), "100");
    let r = response_from_reply(&request, &fields).unwrap();
    assert!(matches!(
        r,
        Response::FlightDetails {
            departure_time: Some(1_725_184_800),
            airfare: Some(50_050),
            seats_available: Some(100)
        }
    ));
}

#[test]
fn business_errors_are_status_500() {
    let mut s = server();
    let request = Request::ReserveSeats { flight_id: 0, seats: 999 };
    let reply = s.serve(&message(&request, "9", "at-least-once"), SRC, 0, 0).unwrap();
    let fields = decode_reply(&reply.response.unwrap()).unwrap();
    assert_eq!(field(&fields, "status").unwrap(), "500");
    assert_eq!(field(&fields, "message").unwrap(), "Not enough seats available");
    let r = response_from_reply(&request, &fields).unwrap();
    assert!(matches!(r, Response::Reservation(Err(ref m)) if m == "Not enough seats available"));
}

#[test]
fn monitoring_pushes_updates() {
    let mut s = server();
    let monitor = Request::MonitorFlight { flight_id: 0, monitor_interval: 60 };
    let reply = s.serve(&message(&monitor, "1", "at-least-once"), SRC, 0, 0).unwrap();
    assert!(reply.pushes.is_empty());
    let reserve = Request::ReserveSeats { flight_id: 0, seats: 3 };
    let reply = s.serve(&message(&reserve, "2", "at-least-once"), SRC, 1_000, 0).unwrap();
    assert_eq!(reply.pushes.len(), 1);
    assert_eq!(reply.pushes[0].0, SRC);
    let fields = decode_reply(&reply.pushes[0].1).unwrap();
    assert_eq!(field(&fields, "action").unwrap(), "5");
    assert_eq!(field(&fields, "flight_id").unwrap(), "0");
    assert_eq!(field(&fields, "seats_available").unwrap(), "47");
}

#[test]
fn malformed_datagrams_are_dropped() {
    let mut s = server();
    assert!(s.serve(&[9, 9, 9], SRC, 0, 0).is_none());
    assert!(s.serve(&encode_value(&Value::Int32(1), ByteOrder::Little), SRC, 0, 0).is_none());
    let no_id = Value::Dict(vec![(
        "invocation_semantic".to_string(),
        Value::String("at-most-once".to_string()),
    )]);
    assert!(s.serve(&encode_value(&no_id, ByteOrder::Little), SRC, 0, 0).is_none());
    let bad_action = Value::Dict(vec![
        ("request_id".to_string(), Value::String("1".to_string())),
        ("invocation_semantic".to_string(), Value::String("at-most-once".to_string())),
        ("action".to_string(), Value::String("7".to_string())),
    ]);
    assert!(s.serve(&encode_value(&bad_action, ByteOrder::Little), SRC, 0, 0).is_none());
    let bad_number = Value::Dict(vec![
        ("request_id".to_string(), Value::String("1".to_string())),
        ("invocation_semantic".to_string(), Value::String("at-least-once".to_string())),
        ("action".to_string(), Value::String("2".to_string())),
        ("flight_id".to_string(), Value::String("x1".to_string())),
    ]);
    assert!(s.serve(&encode_value(&bad_number, ByteOrder::Little), SRC, 0, 0).is_none());
    assert!(s.store.is_empty());
}

#[test]
fn unknown_semantic_gets_no_reply() {
    let mut s = server();
    let bytes = message(&Request::ReserveSeats { flight_id: 0, seats: 1 }, "5", "exactly-once");
    assert!(s.serve(&bytes, SRC, 0, 0).is_none());
    assert_eq!(seats(&s, 0), 50);
}

#[test]
fn cached_response_lookup() {
    let mut s = server();
    let bytes = message(&Request::QueryFlightDetails { flight_id: 0 }, "77", "at-most-once");
    let reply = s.serve(&bytes, SRC, 0, 0).unwrap();
    assert_eq!(s.cached_response(&"77".to_string()), reply.response);
    assert_eq!(s.cached_response(&"78".to_string()), None);
}

#[test]
fn push_message_fields() {
    let bytes = push_message(FlightUpdate { flight_id: 3, seats_available: -0 }).unwrap();
    let fields = decode_reply(&bytes).unwrap();
    assert_eq!(fields.len(), 3);
    assert_eq!(field(&fields, "seats_available").unwrap(), "0");
}

#[test]
fn reply_for_empty_id_list() {
    let bytes = reply_message(&Response::FlightIds(vec![]), &"3".to_string()).unwrap();
    let fields = decode_reply(&bytes).unwrap();
    assert_eq!(field(&fields, "status").unwrap(), "500");
    assert_eq!(field(&fields, "message").unwrap(), "No matching flights found");
}

#[test]
fn fare_text_and_parse() {
    assert_eq!(fare_to_text(20_000), "200");
    assert_eq!(fare_to_text(50_050), "500.5");
    assert_eq!(fare_to_text(1_234), "12.34");
    assert_eq!(fare_to_text(5), "0.05");
    assert_eq!(parse_fare(&"200".to_string()), Some(20_000));
    assert_eq!(parse_fare(&"500.5".to_string()), Some(50_050));
    assert_eq!(parse_fare(&"12.34".to_string()), Some(1_234));
    assert_eq!(parse_fare(&"1.2.3".to_string()), None);
    assert_eq!(parse_fare(&"".to_string()), None);
}

#[test]
fn id_lists() {
    assert_eq!(join_ids(&vec![]), "");
    assert_eq!(join_ids(&vec![4, -2, 10]), "4,-2,10");
    assert_eq!(split_ids(&"4,-2,10".to_string()), Some(vec![4, -2, 10]));
    assert_eq!(split_ids(&"4,,10".to_string()), None);
    assert_eq!(split_ids(&"".to_string()), None);
}

#[test]
fn retry_budget() {
    assert_eq!(after_timeout(1, 3), RetryAction::Resend);
    assert_eq!(after_timeout(2, 3), RetryAction::Resend);
    assert_eq!(after_timeout(3, 3), RetryAction::GiveUp);
    assert_eq!(after_timeout(1, 0), RetryAction::GiveUp);
}

#[test]
fn request_message_fields() {
    let bytes = message(&Request::MonitorFlight { flight_id: 2, monitor_interval: 30 }, "11", "at-most-once");
    let fields = decode_reply(&bytes).unwrap();
    assert_eq!(field(&fields, "action").unwrap(), "4");
    assert_eq!(field(&fields, "monitor_interval").unwrap(), "30");
    assert_eq!(field(&fields, "request_id").unwrap(), "11");
}
