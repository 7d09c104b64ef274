use vstd::prelude::*;
use vstd::utf8::encode_utf8;
use crate::codec::{
    ByteOrder, Datum, Value, Serialize, Serializer, MAX_LEN, encode, entry_models, entry_parts,
};
use crate::engine::{FlightUpdate, Request, Response};
use crate::text::{decimal, digit_char, i32_text, i32_value, parse_i32, u64_text};

verus! {

/// The value of the last entry of `m` under `key`.
pub open spec fn field(m: Seq<(Seq<char>, Datum)>, key: Seq<char>) -> Option<Datum>
    decreases m.len(),
{
    if m.len() == 0 {
        None
    } else if m.last().0 == key {
        Some(m.last().1)
    } else {
        field(m.drop_last(), key)
    }
}

/// The string under `key` in `m`, if there is one.
pub open spec fn text_of(m: Seq<(Seq<char>, Datum)>, key: Seq<char>) -> Option<Seq<char>> {
    match field(m, key) {
        Some(Datum::Text(s)) => Some(s),
        _ => None,
    }
}

/// The decimal `i32` spelled by the string under `key` in `m`, if there is one.
pub open spec fn number_of(m: Seq<(Seq<char>, Datum)>, key: Seq<char>) -> Option<i32> {
    match text_of(m, key) {
        Some(s) => i32_value(s),
        None => None,
    }
}

/// Abstract content of a request.
pub enum Query {
    FlightIds(Seq<char>, Seq<char>),
    Details(i32),
    Reserve(i32, i32),
    Monitor(i32, i32),
}

impl Request {
    pub open spec fn query(self) -> Query {
        match self {
            Request::QueryFlightIds { source, destination } => Query::FlightIds(source@, destination@),
            Request::QueryFlightDetails { flight_id } => Query::Details(flight_id),
            Request::ReserveSeats { flight_id, seats } => Query::Reserve(flight_id, seats),
            Request::MonitorFlight { flight_id, monitor_interval } => Query::Monitor(flight_id, monitor_interval),
        }
    }
}

/// The request that the fields `m` of an envelope describe: `action` "1" to "4" and the
/// fields that action needs, numbers written in decimal.
pub open spec fn query_of(m: Seq<(Seq<char>, Datum)>) -> Option<Query> {
    match text_of(m, "action"@) {
        Some(a) => if a == "1"@ {
            match (text_of(m, "source"@), text_of(m, "destination"@)) {
                (Some(s), Some(d)) => Some(Query::FlightIds(s, d)),
                _ => None,
            }
        } else if a == "2"@ {
            match number_of(m, "flight_id"@) {
                Some(f) => Some(Query::Details(f)),
                None => None,
            }
        } else if a == "3"@ {
            match (number_of(m, "flight_id"@), number_of(m, "seats"@)) {
                (Some(f), Some(n)) => Some(Query::Reserve(f, n)),
                _ => None,
            }
        } else if a == "4"@ {
            match (number_of(m, "flight_id"@), number_of(m, "monitor_interval"@)) {
                (Some(f), Some(n)) => Some(Query::Monitor(f, n)),
                _ => None,
            }
        } else {
            None
        },
        None => None,
    }
}

/// The string under `key` in `entries`, if there is one.
pub fn get_text(entries: &Vec<(String, Value)>, key: &str) -> (r: Option<String>)
    ensures
        r is None <==> text_of(entry_models(entries@), key@) is None,
        r matches Some(s) ==> text_of(entry_models(entries@), key@) == Some(s@),
{
    let k = String::from_str(key);
    let ghost m = entry_models(entries@);
    let mut i: usize = entries.len();
    assert(m.take(i as int) =~= m);
    while i > 0
        invariant
            i <= entries@.len(),
            k@ == key@,
            m == entry_models(entries@),
            field(m, key@) == field(m.take(i as int), key@),
        decreases i,
    {
        let j = i - 1;
        assert(m.take(i as int).drop_last() =~= m.take(j as int));
        if entries[j].0 == k {
            return match &entries[j].1 {
                Value::String(s) => Some(s.clone()),
                _ => None,
            };
        }
        i = j;
    }
    None
}

/// The `i32` spelled by the string under `key` in `entries`, if there is one.
pub fn get_number(entries: &Vec<(String, Value)>, key: &str) -> (r: Option<i32>)
    ensures
        r == number_of(entry_models(entries@), key@),
{
    match get_text(entries, key) {
        Some(s) => parse_i32(s.as_str()),
        None => None,
    }
}

/// The request that the fields of an envelope describe, if they describe one.
pub fn request_from_fields(entries: &Vec<(String, Value)>) -> (r: Option<Request>)
    ensures
        r is None <==> query_of(entry_models(entries@)) is None,
        r matches Some(q) ==> query_of(entry_models(entries@)) == Some(q.query()),
{
    let action = match get_text(entries, "action") {
        Some(a) => a,
        None => return None,
    };
    if action == String::from_str("1") {
        match (get_text(entries, "source"), get_text(entries, "destination")) {
            (Some(source), Some(destination)) => Some(Request::QueryFlightIds { source, destination }),
            _ => None,
        }
    } else if action == String::from_str("2") {
        match get_number(entries, "flight_id") {
            Some(flight_id) => Some(Request::QueryFlightDetails { flight_id }),
            None => None,
        }
    } else if action == String::from_str("3") {
        match (get_number(entries, "flight_id"), get_number(entries, "seats")) {
            (Some(flight_id), Some(seats)) => Some(Request::ReserveSeats { flight_id, seats }),
            _ => None,
        }
    } else if action == String::from_str("4") {
        match (get_number(entries, "flight_id"), get_number(entries, "monitor_interval")) {
            (Some(flight_id), Some(monitor_interval)) => Some(Request::MonitorFlight { flight_id, monitor_interval }),
            _ => None,
        }
    } else {
        None
    }
}


/// Ids in decimal, separated by commas.
pub open spec fn joined(ids: Seq<i32>) -> Seq<char>
    decreases ids.len(),
{
    if ids.len() == 0 {
        Seq::empty()
    } else if ids.len() == 1 {
        decimal(ids[0] as int)
    } else {
        joined(ids.drop_last()) + seq![','] + decimal(ids.last() as int)
    }
}

/// A fare given in hundredths, in decimal with as few fractional digits as it needs.
pub open spec fn fare_text(c: u64) -> Seq<char> {
    let whole = decimal((c / 100) as int);
    let frac = (c % 100) as nat;
    if frac == 0 {
        whole
    } else if frac % 10 == 0 {
        whole + seq!['.', digit_char(frac / 10)]
    } else {
        whole + seq!['.', digit_char(frac / 10), digit_char(frac % 10)]
    }
}

/// Name of the text that a calendar gives for an instant, in seconds since the Unix epoch.
pub uninterp spec fn datetime_text(secs: i64) -> Seq<char>;

/// Relies on chrono's `DateTime::from_timestamp` and the `Display` of `NaiveDateTime`: the UTC
/// date and time of `secs` seconds after the Unix epoch, where chrono can represent it.
#[verifier::external_body]
fn departure_text(secs: i64) -> (r: Option<String>)
    ensures
        r matches Some(s) ==> s@ == datetime_text(secs),
{
    match chrono::DateTime::from_timestamp(secs, 0) {
        Some(t) => Some(t.naive_utc().to_string()),
        None => None,
    }
}

/// Whether `d` is what the departure field of `resp` may hold: the calendar text of its
/// departure time, or nothing where the calendar has none.
pub open spec fn departure_ok(resp: Response, d: Option<Seq<char>>) -> bool {
    match resp {
        Response::FlightDetails { departure_time: Some(t), .. } => d is None || d == Some(datetime_text(t)),
        _ => d is None,
    }
}

/// The fields of the reply that reports `resp`, the departure given as `departure`.
pub open spec fn fields_of(resp: Response, departure: Option<Seq<char>>) -> Seq<(Seq<char>, Seq<char>)> {
    match resp {
        Response::FlightIds(ids) => if ids@.len() == 0 {
            seq![("status"@, "500"@), ("message"@, "No matching flights found"@)]
        } else {
            seq![("status"@, "200"@), ("flight_ids"@, joined(ids@))]
        },
        Response::FlightDetails { departure_time, airfare, seats_available } => match (departure, airfare, seats_available) {
            (Some(t), Some(f), Some(n)) => seq![
                ("status"@, "200"@),
                ("departure_time"@, t),
                ("airfare"@, fare_text(f)),
                ("seats_available"@, decimal(n as int)),
            ],
            _ => seq![("status"@, "500"@), ("message"@, "Flight details unavailable"@)],
        },
        Response::Reservation(Ok(_)) => seq![("status"@, "200"@)],
        Response::MonitoringStarted(Ok(_)) => seq![("status"@, "200"@)],
        Response::Reservation(Err(m)) => seq![("status"@, "500"@), ("message"@, m@)],
        Response::MonitoringStarted(Err(m)) => seq![("status"@, "500"@), ("message"@, m@)],
        Response::Error(m) => seq![("status"@, "500"@), ("message"@, m@)],
    }
}

/// Views of string pairs.
pub open spec fn pair_views(v: Seq<(String, String)>) -> Seq<(Seq<char>, Seq<char>)> {
    Seq::new(v.len(), |i: int| (v[i].0@, v[i].1@))
}

fn pair(k: &str, v: String) -> (r: (String, String))
    ensures
        r.0@ == k@,
        r.1@ == v@,
{
    (String::from_str(k), v)
}

/// Ids in decimal, separated by commas.
pub fn join_ids(ids: &Vec<i32>) -> (r: String)
    ensures
        r@ == joined(ids@),
{
    let mut out = String::new();
    let mut i: usize = 0;
    while i < ids.len()
        invariant
            i <= ids@.len(),
            out@ == joined(ids@.take(i as int)),
        decreases ids@.len() - i,
    {
        assert(ids@.take(i as int + 1).drop_last() =~= ids@.take(i as int));
        if i > 0 {
            out.append(",");
        }
        let t = i32_text(ids[i]);
        out.append(t.as_str());
        proof {
            if i == 0 {
                assert(out@ =~= joined(ids@.take(1)));
            } else {
                reveal_strlit(",");
                assert(ids@.take(i as int + 1).last() == ids@[i as int]);
                assert(out@ =~= joined(ids@.take(i as int + 1)));
            }
        }
        i = i + 1;
    }
    assert(ids@.take(i as int) =~= ids@);
    out
}

/// A single digit is its own decimal text.
proof fn lemma_single_digit(d: nat)
    requires
        d < 10,
    ensures
        decimal(d as int) == seq![digit_char(d)],
{
    assert(decimal(d as int) == crate::text::digits(d));
}

/// A fare given in hundredths, in decimal with as few fractional digits as it needs.
pub fn fare_to_text(c: u64) -> (r: String)
    ensures
        r@ == fare_text(c),
{
    let mut out = u64_text(c / 100);
    let frac = c % 100;
    if frac != 0 {
        out.append(".");
        let tens = u64_text(frac / 10);
        proof { lemma_single_digit((frac / 10) as nat); }
        out.append(tens.as_str());
        if frac % 10 != 0 {
            let ones = u64_text(frac % 10);
            proof { lemma_single_digit((frac % 10) as nat); }
            out.append(ones.as_str());
        }
    }
    proof { reveal_strlit("."); }
    assert(out@ =~= fare_text(c));
    out
}

/// The fields of the reply that reports `resp`, the departure given as `departure`.
pub fn reply_fields(resp: &Response, departure: Option<String>) -> (r: Vec<(String, String)>)
    ensures
        pair_views(r@) == fields_of(*resp, text_view(departure)),
{
    let mut out: Vec<(String, String)> = Vec::new();
    match resp {
        Response::FlightIds(ids) => {
            if ids.len() == 0 {
                out.push(pair("status", String::from_str("500")));
                out.push(pair("message", String::from_str("No matching flights found")));
            } else {
                out.push(pair("status", String::from_str("200")));
                out.push(pair("flight_ids", join_ids(ids)));
            }
        },
        Response::FlightDetails { departure_time: _, airfare, seats_available } => {
            match (departure, airfare, seats_available) {
                (Some(t), Some(f), Some(n)) => {
                    out.push(pair("status", String::from_str("200")));
                    out.push(pair("departure_time", t));
                    out.push(pair("airfare", fare_to_text(*f)));
                    out.push(pair("seats_available", i32_text(*n)));
                },
                _ => {
                    out.push(pair("status", String::from_str("500")));
                    out.push(pair("message", String::from_str("Flight details unavailable")));
                },
            }
        },
        Response::Reservation(Ok(_)) | Response::MonitoringStarted(Ok(_)) => {
            out.push(pair("status", String::from_str("200")));
        },
        Response::Reservation(Err(m)) | Response::MonitoringStarted(Err(m)) | Response::Error(m) => {
            out.push(pair("status", String::from_str("500")));
            out.push(pair("message", m.clone()));
        },
    }
    assert(pair_views(out@) =~= fields_of(*resp, text_view(departure)));
    out
}


/// View of an optional string.
pub open spec fn text_view(o: Option<String>) -> Option<Seq<char>> {
    match o {
        Some(t) => Some(t@),
        None => None,
    }
}

/// View of optional bytes.
pub open spec fn bytes_view(r: Option<Vec<u8>>) -> Option<Seq<u8>> {
    match r {
        Some(b) => Some(b@),
        None => None,
    }
}

/// Map entries holding the strings of `ps`.
pub open spec fn text_entries(ps: Seq<(Seq<char>, Seq<char>)>) -> Seq<(Seq<char>, Datum)> {
    Seq::new(ps.len(), |i: int| (ps[i].0, Datum::Text(ps[i].1)))
}

/// Every length in the string pairs `ps` fits its `Int32` prefix.
pub open spec fn pairs_fit(ps: Seq<(Seq<char>, Seq<char>)>) -> bool {
    &&& ps.len() <= MAX_LEN
    &&& forall|i: int| 0 <= i < ps.len() ==> encode_utf8((#[trigger] ps[i]).0).len() <= MAX_LEN
        && encode_utf8(ps[i].1).len() <= MAX_LEN
}

/// The wire form of a message made of the string fields `ps`: a map, little-endian.
pub open spec fn message_bytes(ps: Seq<(Seq<char>, Seq<char>)>) -> Option<Seq<u8>> {
    if pairs_fit(ps) {
        Some(encode(Datum::Dict(text_entries(ps)), ByteOrder::Little))
    } else {
        None
    }
}

/// Encodes string fields as a map, little-endian; nothing where a length does not fit.
pub fn encode_fields(fields: &Vec<(String, String)>) -> (r: Option<Vec<u8>>)
    ensures
        bytes_view(r) == message_bytes(pair_views(fields@)),
{
    let ghost ps = pair_views(fields@);
    if fields.len() > MAX_LEN {
        return None;
    }
    let mut i: usize = 0;
    while i < fields.len()
        invariant
            i <= fields@.len(),
            ps == pair_views(fields@),
            forall|j: int| 0 <= j < i ==> encode_utf8((#[trigger] ps[j]).0).len() <= MAX_LEN
                && encode_utf8(ps[j].1).len() <= MAX_LEN,
        decreases fields@.len() - i,
    {
        let key_len = fields[i].0.as_str().as_bytes().len();
        let value_len = fields[i].1.as_str().as_bytes().len();
        assert(key_len == encode_utf8(fields@[i as int].0@).len());
        assert(value_len == encode_utf8(fields@[i as int].1@).len());
        if key_len > MAX_LEN || value_len > MAX_LEN {
            assert(!pairs_fit(ps)) by {
                assert(ps[i as int] == (fields@[i as int].0@, fields@[i as int].1@));
            }
            return None;
        }
        assert(ps[i as int] == (fields@[i as int].0@, fields@[i as int].1@));
        i = i + 1;
    }
    assert(pairs_fit(ps));
    assert forall|j: int| 0 <= j < fields@.len() implies (#[trigger] fields@[j]).0.serializable() && fields@[j].1.serializable() by {
        assert(ps[j] == (fields@[j].0@, fields@[j].1@));
    }
    let mut serializer = Serializer::new(ByteOrder::Little);
    serializer.serialize_map(fields.as_slice());
    let out = serializer.get_buffer();
    proof {
        let es = text_entries(ps);
        assert(Seq::new(fields@.len(), |i: int| fields@[i].0.wire(ByteOrder::Little) + fields@[i].1.wire(ByteOrder::Little))
            =~= entry_parts(es, ByteOrder::Little));
        assert(out@ =~= encode(Datum::Dict(es), ByteOrder::Little));
    }
    Some(out)
}

/// The fields of the message pushed to the subscribers of a flight when its availability changes.
pub open spec fn push_fields(u: FlightUpdate) -> Seq<(Seq<char>, Seq<char>)> {
    seq![
        ("action"@, "5"@),
        ("flight_id"@, decimal(u.flight_id as int)),
        ("seats_available"@, decimal(u.seats_available as int)),
    ]
}

/// The message pushed to the subscribers of a flight when its availability changes.
pub fn push_message(update: FlightUpdate) -> (r: Option<Vec<u8>>)
    ensures
        bytes_view(r) == message_bytes(push_fields(update)),
{
    let mut fields: Vec<(String, String)> = Vec::new();
    fields.push(pair("action", String::from_str("5")));
    fields.push(pair("flight_id", i32_text(update.flight_id)));
    fields.push(pair("seats_available", i32_text(update.seats_available)));
    assert(pair_views(fields@) =~= push_fields(update));
    encode_fields(&fields)
}

/// The fields of the reply to request `request_id` that reports `resp`.
pub open spec fn reply_of(resp: Response, departure: Option<Seq<char>>, request_id: Seq<char>) -> Seq<(Seq<char>, Seq<char>)> {
    fields_of(resp, departure).push(("request_id"@, request_id))
}

/// The reply to request `request_id` that reports `resp`, little-endian; nothing where a length
/// does not fit.
pub fn reply_message(resp: &Response, request_id: &String) -> (r: Option<Vec<u8>>)
    ensures
        exists|d: Option<Seq<char>>|
            #[trigger] departure_ok(*resp, d) && bytes_view(r) == message_bytes(reply_of(*resp, d, request_id@)),
{
    let departure = match resp {
        Response::FlightDetails { departure_time: Some(t), .. } => departure_text(*t),
        _ => None,
    };
    let ghost d = text_view(departure);
    let mut fields = reply_fields(resp, departure);
    fields.push(pair("request_id", request_id.clone()));
    proof {
        assert(departure_ok(*resp, d));
    }
    assert(pair_views(fields@) =~= reply_of(*resp, d, request_id@));
    encode_fields(&fields)
}

} // verus!
