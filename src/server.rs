use vstd::prelude::*;
use crate::codec::{ByteOrder, Datum, Deserializer, Value, entry_models, lemma_dict_model, parse};
use crate::dispatch::{
    Query, bytes_view, departure_ok, get_text, message_bytes, push_fields, push_message,
    query_of, reply_message, reply_of, request_from_fields, text_of,
};
use crate::engine::{
    ClientAddr, Flight, FlightController, FlightUpdate, MonitoringClient, Request, Response,
    find, handled, ids_unique, lemma_reserve_exact, reserve_table, seats_valid,
};

verus! {

/// The fields of the envelope that `b` starts with: a map, little-endian.
pub open spec fn envelope(b: Seq<u8>) -> Option<Seq<(Seq<char>, Datum)>> {
    match parse(b, 0, ByteOrder::Little) {
        Ok((Datum::Dict(m), _)) => Some(m),
        _ => None,
    }
}

/// Reads the fields of the envelope that `datagram` starts with.
pub fn decode_envelope(datagram: &[u8]) -> (r: Option<Vec<(String, Value)>>)
    ensures
        r is None <==> envelope(datagram@) is None,
        r matches Some(e) ==> envelope(datagram@) == Some(entry_models(e@)),
{
    let mut d = Deserializer::new(datagram, ByteOrder::Little);
    match d.deserialize_next() {
        Ok(Value::Dict(entries)) => {
            proof { lemma_dict_model(entries); }
            Some(entries)
        },
        _ => None,
    }
}

/// A response kept under its request id.
pub struct RequestInfo {
    /// When the request was first answered, in seconds since the Unix epoch.
    pub timestamp: i64,
    /// The encoded reply.
    pub response: Vec<u8>,
}

/// The reply kept under `id` in `store`: the latest one.
pub open spec fn cached(store: Seq<(String, RequestInfo)>, id: Seq<char>) -> Option<Seq<u8>>
    decreases store.len(),
{
    if store.len() == 0 {
        None
    } else if store.last().0@ == id {
        Some(store.last().1.response@)
    } else {
        cached(store.drop_last(), id)
    }
}

/// The messages for the updates `ups`, each to its subscriber; an update whose message cannot
/// be encoded is left out.
pub open spec fn push_list(ups: Seq<(ClientAddr, FlightUpdate)>) -> Seq<(ClientAddr, Seq<u8>)>
    decreases ups.len(),
{
    if ups.len() == 0 {
        Seq::empty()
    } else {
        let r = push_list(ups.drop_last());
        match message_bytes(push_fields(ups.last().1)) {
            Some(b) => r.push((ups.last().0, b)),
            None => r,
        }
    }
}

/// Views of addressed messages.
pub open spec fn push_views(v: Seq<(ClientAddr, Vec<u8>)>) -> Seq<(ClientAddr, Seq<u8>)> {
    Seq::new(v.len(), |i: int| (v[i].0, v[i].1@))
}

/// What the server sends for one datagram.
pub struct Reply {
    /// The reply to the sender; none where it could not be encoded.
    pub response: Option<Vec<u8>>,
    /// The reply was kept from an earlier request with the same id.
    pub from_cache: bool,
    /// Updates for subscribers, each with its address.
    pub pushes: Vec<(ClientAddr, Vec<u8>)>,
}

/// What serving datagram `b` from `src` at `now` (milliseconds) and `timestamp` (seconds) does:
/// from table `fs`, registry `ms` and reply store `store`, it leads to `fs2`, `ms2`, `store2`
/// and sends `r`.
pub open spec fn served(
    fs: Seq<Flight>,
    ms: Seq<(i32, MonitoringClient)>,
    store: Seq<(String, RequestInfo)>,
    b: Seq<u8>,
    src: ClientAddr,
    now: u64,
    timestamp: i64,
    fs2: Seq<Flight>,
    ms2: Seq<(i32, MonitoringClient)>,
    store2: Seq<(String, RequestInfo)>,
    r: Option<Reply>,
) -> bool {
    let unchanged = fs2 == fs && ms2 == ms && store2 == store;
    match envelope(b) {
        None => r is None && unchanged,
        Some(m) => match (text_of(m, "request_id"@), text_of(m, "invocation_semantic"@)) {
            (Some(id), Some(sem)) => if sem == "at-most-once"@ && cached(store, id) is Some {
                &&& unchanged
                &&& r matches Some(rep)
                &&& bytes_view(rep.response) == cached(store, id)
                &&& rep.from_cache
                &&& rep.pushes@.len() == 0
            } else if sem == "at-most-once"@ || sem == "at-least-once"@ {
                match query_of(m) {
                    None => r is None && unchanged,
                    Some(q) => exists|req: Request, resp: Response, ups: Seq<(ClientAddr, FlightUpdate)>, d: Option<Seq<char>>|
                        #![trigger handled(fs, ms, req, now, Some(src), fs2, ms2, resp, ups), departure_ok(resp, d)]
                        handled(fs, ms, req, now, Some(src), fs2, ms2, resp, ups) && {
                            let bytes = message_bytes(reply_of(resp, d, id));
                            &&& req.query() == q
                            &&& departure_ok(resp, d)
                            &&& r matches Some(rep)
                            &&& bytes_view(rep.response) == bytes
                            &&& !rep.from_cache
                            &&& push_views(rep.pushes@) == push_list(ups)
                            &&& bytes is None ==> store2 == store
                            &&& bytes matches Some(v) ==> {
                                &&& store2.len() == store.len() + 1
                                &&& store2.drop_last() == store
                                &&& store2.last().0@ == id
                                &&& store2.last().1.response@ == v
                                &&& store2.last().1.timestamp == timestamp
                            }
                        },
                }
            } else {
                r is None && unchanged
            },
            _ => r is None && unchanged,
        },
    }
}

/// The semantic named in the envelope of `b`.
pub open spec fn semantic_of(b: Seq<u8>) -> Option<Seq<char>> {
    match envelope(b) {
        Some(m) => text_of(m, "invocation_semantic"@),
        None => None,
    }
}

/// Under "at-most-once", a datagram served again after it was answered gets byte for byte the
/// same reply, and the second time the engine's state and the kept replies do not change.
pub proof fn lemma_at_most_once_replay(
    fs0: Seq<Flight>,
    ms0: Seq<(i32, MonitoringClient)>,
    st0: Seq<(String, RequestInfo)>,
    b: Seq<u8>,
    src1: ClientAddr,
    now1: u64,
    ts1: i64,
    fs1: Seq<Flight>,
    ms1: Seq<(i32, MonitoringClient)>,
    st1: Seq<(String, RequestInfo)>,
    r1: Option<Reply>,
    src2: ClientAddr,
    now2: u64,
    ts2: i64,
    fs2: Seq<Flight>,
    ms2: Seq<(i32, MonitoringClient)>,
    st2: Seq<(String, RequestInfo)>,
    r2: Option<Reply>,
)
    requires
        semantic_of(b) == Some("at-most-once"@),
        served(fs0, ms0, st0, b, src1, now1, ts1, fs1, ms1, st1, r1),
        served(fs1, ms1, st1, b, src2, now2, ts2, fs2, ms2, st2, r2),
        r1 matches Some(rep) && rep.response is Some,
    ensures
        r2 matches Some(rep2) && bytes_view(rep2.response) == bytes_view(r1->Some_0.response),
        fs2 == fs1,
        ms2 == ms1,
        st2 == st1,
{
    let m = envelope(b)->Some_0;
    let id = text_of(m, "request_id"@)->Some_0;
    if !(cached(st0, id) is Some) {
        let q = query_of(m)->Some_0;
        let (req, resp, ups, d) = choose|req: Request, resp: Response, ups: Seq<(ClientAddr, FlightUpdate)>, d: Option<Seq<char>>|
            #![trigger handled(fs0, ms0, req, now1, Some(src1), fs1, ms1, resp, ups), departure_ok(resp, d)]
            handled(fs0, ms0, req, now1, Some(src1), fs1, ms1, resp, ups) && {
                let bytes = message_bytes(reply_of(resp, d, id));
                &&& req.query() == q
                &&& departure_ok(resp, d)
                &&& r1 matches Some(rep)
                &&& bytes_view(rep.response) == bytes
                &&& !rep.from_cache
                &&& push_views(rep.pushes@) == push_list(ups)
                &&& bytes is None ==> st1 == st0
                &&& bytes matches Some(v) ==> {
                    &&& st1.len() == st0.len() + 1
                    &&& st1.drop_last() == st0
                    &&& st1.last().0@ == id
                    &&& st1.last().1.response@ == v
                    &&& st1.last().1.timestamp == ts1
                }
            };
        assert(cached(st1, id) == bytes_view(r1->Some_0.response));
    }
}

/// Under "at-least-once", a reservation served twice is applied twice: two replays of a request
/// for `n` seats take `2 * n` seats from a flight that has them.
pub proof fn lemma_at_least_once_reapplies(
    fs0: Seq<Flight>,
    ms0: Seq<(i32, MonitoringClient)>,
    st0: Seq<(String, RequestInfo)>,
    b: Seq<u8>,
    src1: ClientAddr,
    now1: u64,
    ts1: i64,
    fs1: Seq<Flight>,
    ms1: Seq<(i32, MonitoringClient)>,
    st1: Seq<(String, RequestInfo)>,
    r1: Option<Reply>,
    src2: ClientAddr,
    now2: u64,
    ts2: i64,
    fs2: Seq<Flight>,
    ms2: Seq<(i32, MonitoringClient)>,
    st2: Seq<(String, RequestInfo)>,
    r2: Option<Reply>,
    flight_id: i32,
    n: i32,
)
    requires
        ids_unique(fs0),
        seats_valid(fs0),
        semantic_of(b) == Some("at-least-once"@),
        envelope(b) matches Some(m) && text_of(m, "request_id"@) is Some && query_of(m) == Some(Query::Reserve(flight_id, n)),
        n >= 0,
        find(fs0, flight_id) >= 0,
        fs0[find(fs0, flight_id)].seats_available >= 2 * n,
        served(fs0, ms0, st0, b, src1, now1, ts1, fs1, ms1, st1, r1),
        served(fs1, ms1, st1, b, src2, now2, ts2, fs2, ms2, st2, r2),
    ensures
        fs2.len() == fs0.len(),
        fs2[find(fs0, flight_id)].seats_available == fs0[find(fs0, flight_id)].seats_available - 2 * n,
{
    let m = envelope(b)->Some_0;
    let id = text_of(m, "request_id"@)->Some_0;
    let q = Query::Reserve(flight_id, n);
    reveal_strlit("at-least-once");
    reveal_strlit("at-most-once");
    assert("at-least-once"@ != "at-most-once"@) by {
        assert("at-least-once"@[4] != "at-most-once"@[4]);
    }
    let (req1, resp1, ups1, d1) = choose|req: Request, resp: Response, ups: Seq<(ClientAddr, FlightUpdate)>, d: Option<Seq<char>>|
        #![trigger handled(fs0, ms0, req, now1, Some(src1), fs1, ms1, resp, ups), departure_ok(resp, d)]
        handled(fs0, ms0, req, now1, Some(src1), fs1, ms1, resp, ups) && req.query() == q && departure_ok(resp, d);
    let (req2, resp2, ups2, d2) = choose|req: Request, resp: Response, ups: Seq<(ClientAddr, FlightUpdate)>, d: Option<Seq<char>>|
        #![trigger handled(fs1, ms1, req, now2, Some(src2), fs2, ms2, resp, ups), departure_ok(resp, d)]
        handled(fs1, ms1, req, now2, Some(src2), fs2, ms2, resp, ups) && req.query() == q && departure_ok(resp, d);
    assert(req1 is ReserveSeats);
    assert(fs1 == reserve_table(fs0, flight_id, n));
    lemma_reserve_exact(fs0, flight_id, n);
    let k = find(fs0, flight_id);
    assert(fs1[k].flight_id == flight_id);
    assert(find(fs1, flight_id) == k) by {
        assert(exists|i: int| 0 <= i < fs1.len() && fs1[i].flight_id == flight_id);
    }
    assert(req2 is ReserveSeats);
    assert(fs2 == reserve_table(fs1, flight_id, n));
    lemma_reserve_exact(fs1, flight_id, n);
}

fn copy_bytes(b: &Vec<u8>) -> (r: Vec<u8>)
    ensures
        r@ == b@,
{
    let mut out: Vec<u8> = Vec::new();
    let mut i: usize = 0;
    while i < b.len()
        invariant
            i <= b@.len(),
            out@ == b@.take(i as int),
        decreases b@.len() - i,
    {
        out.push(b[i]);
        assert(out@ =~= b@.take(i as int + 1));
        i = i + 1;
    }
    assert(b@.take(i as int) =~= b@);
    out
}

/// The engine and the replies kept by request id, which are never dropped.
pub struct Server {
    pub controller: FlightController,
    pub store: Vec<(String, RequestInfo)>,
}

impl Server {
    /// A server over `controller` with no reply kept.
    pub fn new(controller: FlightController) -> (r: Server)
        ensures
            r.controller == controller,
            r.store@.len() == 0,
    {
        Server { controller, store: Vec::new() }
    }

    /// The reply kept under `id`.
    pub fn cached_response(&self, id: &String) -> (r: Option<Vec<u8>>)
        ensures
            bytes_view(r) == cached(self.store@, id@),
    {
        let mut i: usize = self.store.len();
        assert(self.store@.take(i as int) =~= self.store@);
        while i > 0
            invariant
                i <= self.store@.len(),
                cached(self.store@, id@) == cached(self.store@.take(i as int), id@),
            decreases i,
        {
            let j = i - 1;
            assert(self.store@.take(i as int).drop_last() =~= self.store@.take(j as int));
            if self.store[j].0 == *id {
                return Some(copy_bytes(&self.store[j].1.response));
            }
            i = j;
        }
        None
    }

    /// Serves one datagram from `src`, received at `now` (milliseconds) and `timestamp`
    /// (seconds since the Unix epoch). Undecodable datagrams and envelopes are dropped. Under
    /// "at-most-once" a request id already answered gets the kept reply, and the engine is not
    /// invoked; otherwise, and always under "at-least-once", the engine handles the request and
    /// the reply is kept under its id.
    pub fn serve(&mut self, datagram: &[u8], src: ClientAddr, now: u64, timestamp: i64) -> (r: Option<Reply>)
        requires
            old(self).controller.wf(),
        ensures
            final(self).controller.wf(),
            served(
                old(self).controller.flights@,
                old(self).controller.monitors(),
                old(self).store@,
                datagram@,
                src,
                now,
                timestamp,
                final(self).controller.flights@,
                final(self).controller.monitors(),
                final(self).store@,
                r,
            ),
    {
        let entries = match decode_envelope(datagram) {
            Some(e) => e,
            None => return None,
        };
        let ghost m = entry_models(entries@);
        let request_id = match get_text(&entries, "request_id") {
            Some(id) => id,
            None => return None,
        };
        let semantic = match get_text(&entries, "invocation_semantic") {
            Some(s) => s,
            None => return None,
        };
        let at_most_once = semantic == String::from_str("at-most-once");
        let at_least_once = semantic == String::from_str("at-least-once");
        if at_most_once {
            match self.cached_response(&request_id) {
                Some(bytes) => {
                    return Some(Reply { response: Some(bytes), from_cache: true, pushes: Vec::new() });
                },
                None => {},
            }
        }
        if !at_most_once && !at_least_once {
            return None;
        }
        let request = match request_from_fields(&entries) {
            Some(q) => q,
            None => return None,
        };
        let ghost req = request;
        let (resp, updates) = self.controller.handle_request(request, now, Some(src));
        let mut pushes: Vec<(ClientAddr, Vec<u8>)> = Vec::new();
        let mut i: usize = 0;
        while i < updates.len()
            invariant
                i <= updates@.len(),
                push_views(pushes@) == push_list(updates@.take(i as int)),
            decreases updates@.len() - i,
        {
            assert(updates@.take(i as int + 1).drop_last() =~= updates@.take(i as int));
            match push_message(updates[i].1) {
                Some(bytes) => {
                    let ghost before = pushes@;
                    pushes.push((updates[i].0, bytes));
                    assert(push_views(pushes@) =~= push_views(before).push((updates@[i as int].0, bytes@)));
                },
                None => {},
            }
            i = i + 1;
        }
        assert(updates@.take(i as int) =~= updates@);
        let response = reply_message(&resp, &request_id);
        let ghost d = choose|d: Option<Seq<char>>| #[trigger] departure_ok(resp, d) && bytes_view(response) == message_bytes(reply_of(resp, d, request_id@));
        let ghost id = request_id@;
        match &response {
            Some(bytes) => {
                let kept = copy_bytes(bytes);
                self.store.push((request_id, RequestInfo { timestamp, response: kept }));
                assert(self.store@.drop_last() =~= old(self).store@);
            },
            None => {},
        }
        let r = Some(Reply { response, from_cache: false, pushes });
        assert(departure_ok(resp, d));
        assert(req.query() == query_of(m)->Some_0);
        assert(envelope(datagram@) == Some(m));
        assert(text_of(m, "request_id"@) == Some(id));
        assert(bytes_view(response) == message_bytes(reply_of(resp, d, id)));
        assert(!(semantic@ == "at-most-once"@ && cached(old(self).store@, request_id@) is Some));
        assert(semantic@ == "at-most-once"@ || semantic@ == "at-least-once"@);
        assert(handled(old(self).controller.flights@, old(self).controller.monitors(), req, now, Some(src), self.controller.flights@, self.controller.monitors(), resp, updates@));
        r
    }
}

} // verus!
