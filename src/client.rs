use vstd::prelude::*;
use vstd::string::StrSliceExecFns;
use vstd::utf8::encode_utf8;
use crate::codec::{
    ByteOrder, Datum, MAX_LEN, Value, encode, entry_models, fits, lemma_decode_encode,
};
use crate::dispatch::{
    Query, bytes_view, encode_fields, field, message_bytes, pair_views, pairs_fit, query_of,
    text_entries, text_of, text_view,
};
use crate::engine::{Request, Response};
use crate::server::{decode_envelope, envelope};
use crate::text::{
    char_digit, decimal, digit_char, digit_value, digits, i32_text, i32_value,
    lemma_decimal_value, lemma_digits_are_digits, lemma_digits_value, parse_i32, parse_u64,
    u64_value,
};
use crate::dispatch::{fare_text, joined};

verus! {

/// The fields of the envelope that carries request `q` with id `id` under semantic `sem`.
pub open spec fn request_fields(q: Query, id: Seq<char>, sem: Seq<char>) -> Seq<(Seq<char>, Seq<char>)> {
    let head = seq![("request_id"@, id), ("invocation_semantic"@, sem)];
    match q {
        Query::FlightIds(s, d) => head + seq![("action"@, "1"@), ("source"@, s), ("destination"@, d)],
        Query::Details(f) => head + seq![("action"@, "2"@), ("flight_id"@, decimal(f as int))],
        Query::Reserve(f, n) => head + seq![
            ("action"@, "3"@),
            ("flight_id"@, decimal(f as int)),
            ("seats"@, decimal(n as int)),
        ],
        Query::Monitor(f, n) => head + seq![
            ("action"@, "4"@),
            ("flight_id"@, decimal(f as int)),
            ("monitor_interval"@, decimal(n as int)),
        ],
    }
}

fn pair(k: &str, v: String) -> (r: (String, String))
    ensures
        r.0@ == k@,
        r.1@ == v@,
{
    (String::from_str(k), v)
}

/// The envelope that carries `request` with id `request_id` under `semantic`, little-endian;
/// nothing where a length does not fit.
pub fn request_message(request: &Request, request_id: &String, semantic: &String) -> (r: Option<Vec<u8>>)
    ensures
        bytes_view(r) == message_bytes(request_fields(request.query(), request_id@, semantic@)),
{
    let mut fields: Vec<(String, String)> = Vec::new();
    fields.push(pair("request_id", request_id.clone()));
    fields.push(pair("invocation_semantic", semantic.clone()));
    match request {
        Request::QueryFlightIds { source, destination } => {
            fields.push(pair("action", String::from_str("1")));
            fields.push(pair("source", source.clone()));
            fields.push(pair("destination", destination.clone()));
        },
        Request::QueryFlightDetails { flight_id } => {
            fields.push(pair("action", String::from_str("2")));
            fields.push(pair("flight_id", i32_text(*flight_id)));
        },
        Request::ReserveSeats { flight_id, seats } => {
            fields.push(pair("action", String::from_str("3")));
            fields.push(pair("flight_id", i32_text(*flight_id)));
            fields.push(pair("seats", i32_text(*seats)));
        },
        Request::MonitorFlight { flight_id, monitor_interval } => {
            fields.push(pair("action", String::from_str("4")));
            fields.push(pair("flight_id", i32_text(*flight_id)));
            fields.push(pair("monitor_interval", i32_text(*monitor_interval)));
        },
    }
    assert(pair_views(fields@) =~= request_fields(request.query(), request_id@, semantic@));
    encode_fields(&fields)
}

/// What the client does once a wait for the reply has run out.
#[derive(Clone, Copy, Debug, PartialEq, Eq, Structural)]
pub enum RetryAction {
    /// Send the same bytes again and wait once more.
    Resend,
    /// Report that no reply came.
    GiveUp,
}

/// After `attempts` waits have run out, with `retry` attempts allowed in all: send again while
/// fewer than `retry` attempts were made.
pub fn after_timeout(attempts: u32, retry: u32) -> (r: RetryAction)
    ensures
        r == (if attempts < retry { RetryAction::Resend } else { RetryAction::GiveUp }),
{
    if attempts < retry {
        RetryAction::Resend
    } else {
        RetryAction::GiveUp
    }
}

/// The reply fields, all strings, of the message `b`.
pub open spec fn reply_text_fields(b: Seq<u8>) -> Option<Seq<(Seq<char>, Seq<char>)>> {
    match envelope(b) {
        Some(m) => if forall|i: int| 0 <= i < m.len() ==> (#[trigger] m[i]).1 is Text {
            Some(Seq::new(m.len(), |i: int| (m[i].0, m[i].1->Text_0)))
        } else {
            None
        },
        None => None,
    }
}

/// Reads a reply message whose fields are all strings.
pub fn decode_reply(bytes: &[u8]) -> (r: Option<Vec<(String, String)>>)
    ensures
        r is None <==> reply_text_fields(bytes@) is None,
        r matches Some(v) ==> reply_text_fields(bytes@) == Some(pair_views(v@)),
{
    let entries = match decode_envelope(bytes) {
        Some(e) => e,
        None => return None,
    };
    let ghost m = entry_models(entries@);
    let mut out: Vec<(String, String)> = Vec::new();
    let mut i: usize = 0;
    while i < entries.len()
        invariant
            i <= entries@.len(),
            m == entry_models(entries@),
            envelope(bytes@) == Some(m),
            forall|j: int| 0 <= j < i ==> (#[trigger] m[j]).1 is Text,
            pair_views(out@) == Seq::new(i as nat, |j: int| (m[j].0, m[j].1->Text_0)),
        decreases entries@.len() - i,
    {
        assert(m[i as int] == (entries@[i as int].0@, entries@[i as int].1.model()));
        match &entries[i].1 {
            Value::String(s) => {
                let ghost before = out@;
                let k = entries[i].0.clone();
                let v = s.clone();
                assert(k@ == m[i as int].0 && v@ == m[i as int].1->Text_0);
                out.push((k, v));
                assert(pair_views(out@) =~= pair_views(before).push((m[i as int].0, m[i as int].1->Text_0)));
                assert(pair_views(out@) =~= Seq::new(i as nat + 1, |j: int| (m[j].0, m[j].1->Text_0)));
            },
            _ => {
                assert(!(m[i as int].1 is Text));
                return None;
            },
        }
        i = i + 1;
    }
    assert(pair_views(out@) =~= Seq::new(m.len(), |j: int| (m[j].0, m[j].1->Text_0)));
    Some(out)
}

/// The string under `key` in `ps`: the last one.
pub open spec fn lookup(ps: Seq<(Seq<char>, Seq<char>)>, key: Seq<char>) -> Option<Seq<char>>
    decreases ps.len(),
{
    if ps.len() == 0 {
        None
    } else if ps.last().0 == key {
        Some(ps.last().1)
    } else {
        lookup(ps.drop_last(), key)
    }
}

/// The string under `key` in `fields`: the last one.
pub fn get_pair(fields: &Vec<(String, String)>, key: &str) -> (r: Option<String>)
    ensures
        text_view(r) == lookup(pair_views(fields@), key@),
{
    let k = String::from_str(key);
    let ghost ps = pair_views(fields@);
    let mut i: usize = fields.len();
    assert(ps.take(i as int) =~= ps);
    while i > 0
        invariant
            i <= fields@.len(),
            k@ == key@,
            ps == pair_views(fields@),
            lookup(ps, key@) == lookup(ps.take(i as int), key@),
        decreases i,
    {
        let j = i - 1;
        assert(ps.take(i as int).drop_last() =~= ps.take(j as int));
        assert(ps[j as int] == (fields@[j as int].0@, fields@[j as int].1@));
        if fields[j].0 == k {
            return Some(fields[j].1.clone());
        }
        i = j;
    }
    None
}

/// The pieces of `s` between commas, in order.
pub open spec fn pieces(s: Seq<char>) -> Seq<Seq<char>>
    decreases s.len(),
{
    if s.len() == 0 {
        seq![Seq::empty()]
    } else {
        let p = pieces(s.drop_last());
        if s.last() == ',' {
            p.push(Seq::empty())
        } else if p.len() > 0 {
            p.update(p.len() - 1, p.last().push(s.last()))
        } else {
            p
        }
    }
}

/// There is always at least one piece.
proof fn lemma_pieces_nonempty(s: Seq<char>)
    ensures
        pieces(s).len() >= 1,
    decreases s.len(),
{
    if s.len() > 0 {
        lemma_pieces_nonempty(s.drop_last());
    }
}

/// The ids that a comma-separated list spells, if every piece is a decimal `i32`.
pub open spec fn ids_value(s: Seq<char>) -> Option<Seq<i32>> {
    let p = pieces(s);
    if forall|i: int| 0 <= i < p.len() ==> (#[trigger] i32_value(p[i])) is Some {
        Some(Seq::new(p.len(), |i: int| i32_value(p[i])->Some_0))
    } else {
        None
    }
}

/// The ids that a comma-separated list spells, if every piece is a decimal `i32`.
pub fn split_ids(s: &String) -> (r: Option<Vec<i32>>)
    ensures
        r is None <==> ids_value(s@) is None,
        r matches Some(v) ==> ids_value(s@) == Some(v@),
{
    let text = s.as_str();
    let n = text.unicode_len();
    let mut done: Vec<i32> = Vec::new();
    let mut ok = true;
    let mut current = String::new();
    let mut i: usize = 0;
    proof { lemma_pieces_nonempty(s@.take(0)); }
    assert(s@.take(0) =~= Seq::<char>::empty());
    while i < n
        invariant
            text@ == s@,
            n == s@.len(),
            i <= n,
            pieces(s@.take(i as int)).len() >= 1,
            current@ == pieces(s@.take(i as int)).last(),
            ok == forall|j: int| 0 <= j < pieces(s@.take(i as int)).len() - 1 ==> (#[trigger] i32_value(pieces(s@.take(i as int))[j])) is Some,
            ok ==> done@.len() == pieces(s@.take(i as int)).len() - 1,
            ok ==> forall|j: int| 0 <= j < done@.len() ==> i32_value(pieces(s@.take(i as int))[j]) == Some(#[trigger] done@[j]),
        decreases n - i,
    {
        let ghost p = pieces(s@.take(i as int));
        let c = text.get_char(i);
        assert(s@.take(i as int + 1).drop_last() =~= s@.take(i as int));
        assert(s@.take(i as int + 1).last() == c);
        if c == ',' {
            match parse_i32(current.as_str()) {
                Some(v) => {
                    if ok {
                        done.push(v);
                    }
                },
                None => {
                    ok = false;
                },
            }
            current = String::new();
            proof {
                let grown = pieces(s@.take(i as int + 1));
                assert(grown == p.push(Seq::empty()));
                assert(grown[p.len() - 1] == p.last());
                if ok {
                    assert forall|j: int| 0 <= j < grown.len() - 1 implies (#[trigger] i32_value(grown[j])) is Some by {
                        if j < p.len() - 1 {
                            assert(grown[j] == p[j]);
                        }
                    }
                    assert forall|j: int| 0 <= j < done@.len() implies i32_value(grown[j]) == Some(#[trigger] done@[j]) by {
                        if j < p.len() - 1 {
                            assert(grown[j] == p[j]);
                        }
                    }
                } else {
                    if i32_value(p.last()) is None {
                        assert(!(i32_value(grown[p.len() - 1]) is Some));
                    } else {
                        let w = choose|j: int| 0 <= j < p.len() - 1 && !(#[trigger] i32_value(p[j]) is Some);
                        assert(grown[w] == p[w]);
                    }
                }
                assert(current@ =~= grown.last());
            }
        } else {
            let one = text.substring_char(i, i + 1);
            current.append(one);
            proof {
                let grown = pieces(s@.take(i as int + 1));
                assert(grown == p.update(p.len() - 1, p.last().push(c)));
                assert(one@ =~= seq![c]);
                assert(current@ =~= grown.last());
                assert forall|j: int| 0 <= j < grown.len() - 1 implies grown[j] == p[j] by {}
                if !ok {
                    let w = choose|j: int| 0 <= j < p.len() - 1 && !(#[trigger] i32_value(p[j]) is Some);
                    assert(grown[w] == p[w]);
                }
            }
        }
        i = i + 1;
    }
    assert(s@.take(i as int) =~= s@);
    let ghost p = pieces(s@);
    match parse_i32(current.as_str()) {
        Some(v) => {
            if !ok {
                let ghost w = choose|j: int| 0 <= j < p.len() - 1 && !(#[trigger] i32_value(p[j]) is Some);
                return None;
            }
            done.push(v);
            assert(done@ =~= Seq::new(p.len(), |j: int| i32_value(p[j])->Some_0));
            Some(done)
        },
        None => {
            assert(!(i32_value(p[p.len() - 1]) is Some));
            None
        },
    }
}

/// The fare, in hundredths, that `s` spells: whole units in decimal, then optionally `.` and one
/// or two decimal digits.
pub open spec fn fare_value(s: Seq<char>) -> Option<u64> {
    let (whole, frac) = if s.len() >= 2 && s[s.len() - 2] == '.' {
        (s.take(s.len() - 2), match digit_value(s.last()) {
            Some(d) => Some(d * 10),
            None => None,
        })
    } else if s.len() >= 3 && s[s.len() - 3] == '.' {
        (s.take(s.len() - 3), match (digit_value(s[s.len() - 2]), digit_value(s.last())) {
            (Some(a), Some(b)) => Some(a * 10 + b),
            _ => None,
        })
    } else {
        (s, Some(0nat))
    };
    match (u64_value(whole), frac) {
        (Some(w), Some(f)) => if w * 100 + f <= u64::MAX {
            Some((w * 100 + f) as u64)
        } else {
            None
        },
        _ => None,
    }
}

/// The fare, in hundredths, that `s` spells.
pub fn parse_fare(s: &String) -> (r: Option<u64>)
    ensures
        r == fare_value(s@),
{
    let text = s.as_str();
    let n = text.unicode_len();
    let (whole, frac) = if n >= 2 && text.get_char(n - 2) == '.' {
        let f = match char_digit(text.get_char(n - 1)) {
            Some(d) => Some(d * 10),
            None => None,
        };
        (text.substring_char(0, n - 2), f)
    } else if n >= 3 && text.get_char(n - 3) == '.' {
        let f = match (char_digit(text.get_char(n - 2)), char_digit(text.get_char(n - 1))) {
            (Some(a), Some(b)) => Some(a * 10 + b),
            _ => None,
        };
        (text.substring_char(0, n - 3), f)
    } else {
        (text, Some(0u64))
    };
    assert(s@.take(s@.len() - 2) =~= s@.subrange(0, s@.len() - 2));
    assert(s@.take(s@.len() - 3) =~= s@.subrange(0, s@.len() - 3));
    match (parse_u64(whole), frac) {
        (Some(w), Some(f)) => {
            if w <= (u64::MAX - f) / 100 {
                Some(w * 100 + f)
            } else {
                None
            }
        },
        _ => None,
    }
}

/// Name of the instant, in seconds since the Unix epoch, that a calendar reads in `text`.
pub uninterp spec fn datetime_secs(text: Seq<char>) -> Option<i64>;

/// Relies on chrono's `NaiveDateTime::parse_from_str` with the format "%Y-%m-%d %H:%M:%S" and
/// `timestamp` of the UTC reading: the seconds since the Unix epoch that `text` names.
#[verifier::external_body]
fn parse_departure(text: &str) -> (r: Option<i64>)
    ensures
        r == datetime_secs(text@),
{
    match chrono::NaiveDateTime::parse_from_str(text, "%Y-%m-%d %H:%M:%S") {
        Ok(t) => Some(t.and_utc().timestamp()),
        Err(_) => None,
    }
}

/// Whether `r` is how the client reads reply fields `ps` for request `q`; none stands for a
/// reply that cannot be read.
pub open spec fn reads_as(q: Query, ps: Seq<(Seq<char>, Seq<char>)>, r: Option<Response>) -> bool {
    let status = lookup(ps, "status"@);
    match q {
        Query::FlightIds(_, _) => match lookup(ps, "flight_ids"@) {
            None => r matches Some(Response::FlightIds(v)) && v@.len() == 0,
            Some(t) => match ids_value(t) {
                Some(ids) => r matches Some(Response::FlightIds(v)) && v@ == ids,
                None => r is None,
            },
        },
        Query::Details(_) => match status {
            None => r is None,
            Some(st) => if st == "200"@ {
                match (lookup(ps, "departure_time"@), lookup(ps, "airfare"@), lookup(ps, "seats_available"@)) {
                    (Some(a), Some(b), Some(c)) => match (datetime_secs(a), fare_value(b), i32_value(c)) {
                        (Some(t), Some(f), Some(n)) => r == Some(Response::FlightDetails {
                            departure_time: Some(t),
                            airfare: Some(f),
                            seats_available: Some(n),
                        }),
                        _ => r is None,
                    },
                    _ => r is None,
                }
            } else {
                r == Some(Response::FlightDetails { departure_time: None, airfare: None, seats_available: None })
            },
        },
        Query::Reserve(_, _) => match status {
            None => r is None,
            Some(st) => if st == "200"@ {
                r matches Some(Response::Reservation(Ok(_)))
            } else {
                match lookup(ps, "message"@) {
                    Some(msg) => r matches Some(Response::Reservation(Err(e))) && e@ == msg,
                    None => r is None,
                }
            },
        },
        Query::Monitor(_, _) => match status {
            None => r is None,
            Some(st) => if st == "200"@ {
                r matches Some(Response::MonitoringStarted(Ok(_)))
            } else {
                match lookup(ps, "message"@) {
                    Some(msg) => r matches Some(Response::MonitoringStarted(Err(e))) && e@ == msg,
                    None => r is None,
                }
            },
        },
    }
}

/// How the client reads the reply fields `fields` to `request`.
pub fn response_from_reply(request: &Request, fields: &Vec<(String, String)>) -> (r: Option<Response>)
    ensures
        reads_as(request.query(), pair_views(fields@), r),
{
    match request {
        Request::QueryFlightIds { .. } => match get_pair(fields, "flight_ids") {
            None => Some(Response::FlightIds(Vec::new())),
            Some(t) => match split_ids(&t) {
                Some(ids) => Some(Response::FlightIds(ids)),
                None => None,
            },
        },
        Request::QueryFlightDetails { .. } => {
            let status = match get_pair(fields, "status") {
                Some(st) => st,
                None => return None,
            };
            if status == String::from_str("200") {
                let (a, b, c) = match (get_pair(fields, "departure_time"), get_pair(fields, "airfare"), get_pair(fields, "seats_available")) {
                    (Some(a), Some(b), Some(c)) => (a, b, c),
                    _ => return None,
                };
                match (parse_departure(a.as_str()), parse_fare(&b), parse_i32(c.as_str())) {
                    (Some(t), Some(f), Some(n)) => Some(Response::FlightDetails {
                        departure_time: Some(t),
                        airfare: Some(f),
                        seats_available: Some(n),
                    }),
                    _ => None,
                }
            } else {
                Some(Response::FlightDetails { departure_time: None, airfare: None, seats_available: None })
            }
        },
        Request::ReserveSeats { .. } => {
            let status = match get_pair(fields, "status") {
                Some(st) => st,
                None => return None,
            };
            if status == String::from_str("200") {
                Some(Response::Reservation(Ok(())))
            } else {
                match get_pair(fields, "message") {
                    Some(m) => Some(Response::Reservation(Err(m))),
                    None => None,
                }
            }
        },
        Request::MonitorFlight { .. } => {
            let status = match get_pair(fields, "status") {
                Some(st) => st,
                None => return None,
            };
            if status == String::from_str("200") {
                Some(Response::MonitoringStarted(Ok(())))
            } else {
                match get_pair(fields, "message") {
                    Some(m) => Some(Response::MonitoringStarted(Err(m))),
                    None => None,
                }
            }
        },
    }
}

/// The last entry under `key` decides what `text_of` reads.
proof fn lemma_last_field(ps: Seq<(Seq<char>, Seq<char>)>, key: Seq<char>, i: int)
    requires
        0 <= i < ps.len(),
        ps[i].0 == key,
        forall|j: int| i < j < ps.len() ==> (#[trigger] ps[j]).0 != key,
    ensures
        text_of(text_entries(ps), key) == Some(ps[i].1),
    decreases ps.len(),
{
    let m = text_entries(ps);
    if i < ps.len() - 1 {
        assert(m.drop_last() =~= text_entries(ps.drop_last()));
        assert(ps[ps.len() - 1].0 != key);
        lemma_last_field(ps.drop_last(), key, i);
    }
}

/// The keys of an envelope are distinct.
proof fn lemma_keys_distinct()
    ensures
        "request_id"@ != "invocation_semantic"@,
        "request_id"@ != "action"@,
        "request_id"@ != "source"@,
        "request_id"@ != "destination"@,
        "request_id"@ != "flight_id"@,
        "request_id"@ != "seats"@,
        "request_id"@ != "monitor_interval"@,
        "invocation_semantic"@ != "action"@,
        "invocation_semantic"@ != "source"@,
        "invocation_semantic"@ != "destination"@,
        "invocation_semantic"@ != "flight_id"@,
        "invocation_semantic"@ != "seats"@,
        "invocation_semantic"@ != "monitor_interval"@,
        "action"@ != "source"@,
        "action"@ != "destination"@,
        "action"@ != "flight_id"@,
        "action"@ != "seats"@,
        "action"@ != "monitor_interval"@,
        "source"@ != "destination"@,
        "flight_id"@ != "seats"@,
        "flight_id"@ != "monitor_interval"@,
        "seats"@ != "monitor_interval"@,
{
    reveal_strlit("request_id");
    assert("request_id"@.len() == 10);
    reveal_strlit("invocation_semantic");
    assert("invocation_semantic"@.len() == 19);
    reveal_strlit("action");
    assert("action"@.len() == 6);
    reveal_strlit("source");
    assert("source"@.len() == 6);
    reveal_strlit("destination");
    assert("destination"@.len() == 11);
    reveal_strlit("flight_id");
    assert("flight_id"@.len() == 9);
    reveal_strlit("seats");
    assert("seats"@.len() == 5);
    reveal_strlit("monitor_interval");
    assert("monitor_interval"@.len() == 16);
    assert("action"@[0] != "source"@[0]);
}

/// A request that the client encodes is read by the server as the same request, under the same
/// id and semantic.
pub proof fn lemma_request_round_trip(q: Query, id: Seq<char>, sem: Seq<char>)
    requires
        message_bytes(request_fields(q, id, sem)) is Some,
    ensures
        ({
            let ps = request_fields(q, id, sem);
            let m = text_entries(ps);
            &&& envelope(message_bytes(ps)->Some_0) == Some(m)
            &&& query_of(m) == Some(q)
            &&& text_of(m, "request_id"@) == Some(id)
            &&& text_of(m, "invocation_semantic"@) == Some(sem)
        }),
{
    let ps = request_fields(q, id, sem);
    let m = text_entries(ps);
    let d = Datum::Dict(m);
    assert(pairs_fit(ps));
    assert(fits(d)) by {
        assert forall|i: int| 0 <= i < m.len() implies encode_utf8((#[trigger] m[i]).0).len() <= MAX_LEN && fits(m[i].1) by {
            assert(m[i] == (ps[i].0, Datum::Text(ps[i].1)));
        }
    }
    lemma_decode_encode(d, ByteOrder::Little, Seq::empty());
    assert(encode(d, ByteOrder::Little) + Seq::<u8>::empty() =~= encode(d, ByteOrder::Little));
    lemma_keys_distinct();
    lemma_last_field(ps, "request_id"@, 0);
    lemma_last_field(ps, "invocation_semantic"@, 1);
    lemma_last_field(ps, "action"@, 2);
    reveal_strlit("1");
    reveal_strlit("2");
    reveal_strlit("3");
    reveal_strlit("4");
    match q {
        Query::FlightIds(src, dst) => {
            lemma_last_field(ps, "source"@, 3);
            lemma_last_field(ps, "destination"@, 4);
        },
        Query::Details(f) => {
            lemma_last_field(ps, "flight_id"@, 3);
            lemma_decimal_value(f);
        },
        Query::Reserve(f, n) => {
            lemma_last_field(ps, "flight_id"@, 3);
            lemma_last_field(ps, "seats"@, 4);
            lemma_decimal_value(f);
            lemma_decimal_value(n);
        },
        Query::Monitor(f, n) => {
            lemma_last_field(ps, "flight_id"@, 3);
            lemma_last_field(ps, "monitor_interval"@, 4);
            lemma_decimal_value(f);
            lemma_decimal_value(n);
        },
    }
}

/// Reading a fare written by the server gives the fare back.
pub proof fn lemma_fare_round_trip(c: u64)
    ensures
        fare_value(fare_text(c)) == Some(c),
{
    let w = (c / 100) as nat;
    let frac = (c % 100) as nat;
    let ws = digits(w);
    lemma_digits_value(w);
    lemma_digits_are_digits(w);
    assert(decimal(w as int) == ws);
    assert(u64_value(ws) == Some(w as u64));
    let s = fare_text(c);
    if frac == 0 {
        assert(s == ws);
        if s.len() >= 2 {
            assert(digit_value(s[s.len() - 2]) is Some);
        }
        if s.len() >= 3 {
            assert(digit_value(s[s.len() - 3]) is Some);
        }
    } else if frac % 10 == 0 {
        assert(s == ws + seq!['.', digit_char(frac / 10)]);
        assert(s.take(s.len() - 2) =~= ws);
        assert(digit_value(digit_char(frac / 10)) == Some(frac / 10));
    } else {
        assert(s == ws + seq!['.', digit_char(frac / 10), digit_char(frac % 10)]);
        assert(s.take(s.len() - 3) =~= ws);
        assert(digit_value(s[s.len() - 2]) is Some);
        assert(digit_value(digit_char(frac / 10)) == Some(frac / 10));
        assert(digit_value(digit_char(frac % 10)) == Some(frac % 10));
    }
}

/// Appending text without commas extends the last piece.
proof fn lemma_pieces_extend(s: Seq<char>, t: Seq<char>)
    requires
        forall|i: int| 0 <= i < t.len() ==> t[i] != ',',
    ensures
        pieces(s + t) == pieces(s).update(pieces(s).len() - 1, pieces(s).last() + t),
    decreases t.len(),
{
    lemma_pieces_nonempty(s);
    if t.len() == 0 {
        assert(s + t =~= s);
        assert(pieces(s).last() + t =~= pieces(s).last());
        assert(pieces(s).update(pieces(s).len() - 1, pieces(s).last()) =~= pieces(s));
    } else {
        let u = t.drop_last();
        lemma_pieces_extend(s, u);
        assert((s + t).drop_last() =~= s + u);
        assert((s + t).last() == t.last());
        lemma_pieces_nonempty(s + u);
        let p = pieces(s);
        assert((p.last() + u).push(t.last()) =~= p.last() + t);
        assert(p.update(p.len() - 1, p.last() + u).update(p.len() - 1, (p.last() + u).push(t.last()))
            =~= p.update(p.len() - 1, p.last() + t));
    }
}

/// Reading a list of ids written by the server gives the ids back.
pub proof fn lemma_ids_round_trip(ids: Seq<i32>)
    requires
        ids.len() >= 1,
    ensures
        pieces(joined(ids)) == Seq::new(ids.len(), |i: int| decimal(ids[i] as int)),
        ids_value(joined(ids)) == Some(ids),
    decreases ids.len(),
{
    let want = Seq::new(ids.len(), |i: int| decimal(ids[i] as int));
    let last = decimal(ids.last() as int);
    assert forall|i: int| 0 <= i < last.len() implies last[i] != ',' by {
        if ids.last() < 0 {
            lemma_digits_are_digits((-ids.last()) as nat);
            if i > 0 {
                assert(last[i] == digits((-ids.last()) as nat)[i - 1]);
                assert(digit_value(last[i]) is Some);
            }
        } else {
            lemma_digits_are_digits(ids.last() as nat);
            assert(digit_value(last[i]) is Some);
        }
    }
    if ids.len() == 1 {
        lemma_pieces_extend(Seq::empty(), last);
        assert(Seq::<char>::empty() + last =~= last);
        assert(joined(ids) == last);
        assert(pieces(joined(ids)) =~= want);
    } else {
        let init = ids.drop_last();
        lemma_ids_round_trip(init);
        let front = joined(init) + seq![','];
        assert(front.drop_last() =~= joined(init));
        assert(pieces(front) == pieces(joined(init)).push(Seq::empty()));
        lemma_pieces_extend(front, last);
        assert(joined(ids) == front + last);
        assert(pieces(joined(ids)) =~= want);
    }
    assert forall|i: int| 0 <= i < want.len() implies (#[trigger] i32_value(want[i])) == Some(ids[i]) by {
        lemma_decimal_value(ids[i]);
    }
    assert(Seq::new(want.len(), |i: int| i32_value(want[i])->Some_0) =~= ids);
}

} // verus!
