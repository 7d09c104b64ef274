use vstd::prelude::*;

verus! {

/// Network address of a client: an IPv6 address (IPv4 addresses mapped into it) and a port.
#[derive(Clone, Copy, Debug, PartialEq, Eq, Structural)]
pub struct ClientAddr {
    pub ip: u128,
    pub port: u16,
}

/// A flight and its seat availability.
#[derive(Debug)]
pub struct Flight {
    pub flight_id: i32,
    pub source: String,
    pub destination: String,
    /// Departure, in seconds since the Unix epoch (UTC).
    pub departure_time: i64,
    /// Fare, in hundredths of the currency unit.
    pub airfare: u64,
    pub seats_available: i32,
}

/// What a client asks of the engine.
#[derive(Debug)]
pub enum Request {
    /// Ids of the flights from `source` to `destination`.
    QueryFlightIds { source: String, destination: String },
    /// Departure, fare and availability of one flight.
    QueryFlightDetails { flight_id: i32 },
    /// Takes `seats` seats of a flight.
    ReserveSeats { flight_id: i32, seats: i32 },
    /// Subscribes the caller to updates of a flight for `monitor_interval` seconds.
    MonitorFlight { flight_id: i32, monitor_interval: i32 },
}

/// What the engine answers.
#[derive(Debug)]
pub enum Response {
    FlightIds(Vec<i32>),
    FlightDetails { departure_time: Option<i64>, airfare: Option<u64>, seats_available: Option<i32> },
    Reservation(Result<(), String>),
    MonitoringStarted(Result<(), String>),
    Error(String),
}

/// New availability of a flight, pushed to its subscribers.
#[derive(Clone, Copy, Debug, PartialEq, Eq, Structural)]
pub struct FlightUpdate {
    pub flight_id: i32,
    pub seats_available: i32,
}

/// A subscription to the updates of one flight, live until `expiration_time`.
#[derive(Clone, Copy, Debug, PartialEq, Eq, Structural)]
pub struct MonitoringClient {
    pub addr: ClientAddr,
    /// Instant after which the subscription is dropped, in milliseconds of the engine's clock.
    pub expiration_time: u64,
}

/// Why a request failed.
#[derive(Clone, Copy, Debug, PartialEq, Eq, Structural)]
pub enum EngineError {
    FlightNotFound,
    NotEnoughSeats,
    NoMatchingFlights,
    InvalidSeatCount,
    InvalidInterval,
}

impl EngineError {
    pub open spec fn text(self) -> Seq<char> {
        match self {
            EngineError::FlightNotFound => "Flight not found"@,
            EngineError::NotEnoughSeats => "Not enough seats available"@,
            EngineError::NoMatchingFlights => "No matching flights found"@,
            EngineError::InvalidSeatCount => "Invalid number of seats"@,
            EngineError::InvalidInterval => "Invalid monitor interval"@,
        }
    }

    /// The message that reports this error.
    pub fn message(self) -> (r: String)
        ensures
            r@ == self.text(),
    {
        match self {
            EngineError::FlightNotFound => String::from_str("Flight not found"),
            EngineError::NotEnoughSeats => String::from_str("Not enough seats available"),
            EngineError::NoMatchingFlights => String::from_str("No matching flights found"),
            EngineError::InvalidSeatCount => String::from_str("Invalid number of seats"),
            EngineError::InvalidInterval => String::from_str("Invalid monitor interval"),
        }
    }
}


/// Position of the flight with id `id` in `fs`, or -1 where there is none.
pub open spec fn find(fs: Seq<Flight>, id: i32) -> int {
    if exists|i: int| 0 <= i < fs.len() && fs[i].flight_id == id {
        choose|i: int| 0 <= i < fs.len() && fs[i].flight_id == id
    } else {
        -1
    }
}

/// No two flights share an id.
pub open spec fn ids_unique(fs: Seq<Flight>) -> bool {
    forall|i: int, j: int|
        0 <= i < fs.len() && 0 <= j < fs.len() && fs[i].flight_id == fs[j].flight_id ==> i == j
}

/// No flight has a negative number of seats available.
pub open spec fn seats_valid(fs: Seq<Flight>) -> bool {
    forall|i: int| 0 <= i < fs.len() ==> (#[trigger] fs[i]).seats_available >= 0
}

/// `f` with `n` seats available.
pub open spec fn with_seats(f: Flight, n: i32) -> Flight {
    Flight { seats_available: n, ..f }
}

/// Ids of the flights from `s` to `d`, in table order.
pub open spec fn matching_ids(fs: Seq<Flight>, s: Seq<char>, d: Seq<char>) -> Seq<i32>
    decreases fs.len(),
{
    if fs.len() == 0 {
        Seq::empty()
    } else {
        let r = matching_ids(fs.drop_last(), s, d);
        if fs.last().source@ == s && fs.last().destination@ == d {
            r.push(fs.last().flight_id)
        } else {
            r
        }
    }
}

/// The subscriptions of `ms` still live at `now`: those expiring strictly after it.
pub open spec fn live(ms: Seq<(i32, MonitoringClient)>, now: u64) -> Seq<(i32, MonitoringClient)>
    decreases ms.len(),
{
    if ms.len() == 0 {
        Seq::empty()
    } else {
        let r = live(ms.drop_last(), now);
        if ms.last().1.expiration_time > now {
            r.push(ms.last())
        } else {
            r
        }
    }
}

/// One update carrying `seats` for each subscription of `ms` to flight `id`, in order.
pub open spec fn updates_for(ms: Seq<(i32, MonitoringClient)>, id: i32, seats: i32) -> Seq<(ClientAddr, FlightUpdate)>
    decreases ms.len(),
{
    if ms.len() == 0 {
        Seq::empty()
    } else {
        let r = updates_for(ms.drop_last(), id, seats);
        if ms.last().0 == id {
            r.push((ms.last().1.addr, FlightUpdate { flight_id: id, seats_available: seats }))
        } else {
            r
        }
    }
}

/// Outcome of reserving `seats` seats on flight `id` of `fs`.
pub open spec fn reserve_outcome(fs: Seq<Flight>, id: i32, seats: i32) -> Result<(), EngineError> {
    if find(fs, id) < 0 {
        Err(EngineError::FlightNotFound)
    } else if seats < 0 {
        Err(EngineError::InvalidSeatCount)
    } else if fs[find(fs, id)].seats_available >= seats {
        Ok(())
    } else {
        Err(EngineError::NotEnoughSeats)
    }
}

/// The flight table after reserving `seats` seats on flight `id` of `fs`.
pub open spec fn reserve_table(fs: Seq<Flight>, id: i32, seats: i32) -> Seq<Flight> {
    if reserve_outcome(fs, id, seats) is Ok {
        let k = find(fs, id);
        fs.update(k, with_seats(fs[k], (fs[k].seats_available - seats) as i32))
    } else {
        fs
    }
}

/// Instant at which a subscription made at `now` for `interval` seconds expires.
pub open spec fn expiry(now: u64, interval: i32) -> u64 {
    if now + interval * 1000 > u64::MAX {
        u64::MAX
    } else {
        (now + interval * 1000) as u64
    }
}

/// The registry after subscribing `entry`: unchanged where the same subscription is there.
pub open spec fn subscribe(ms: Seq<(i32, MonitoringClient)>, entry: (i32, MonitoringClient)) -> Seq<(i32, MonitoringClient)> {
    if ms.contains(entry) {
        ms
    } else {
        ms.push(entry)
    }
}

/// What handling `request` at `now` does: from table `fs` and registry `ms` it leads to table
/// `fs2` and registry `ms2`, answers `resp` and pushes `pushes` to subscribers.
pub open spec fn handled(
    fs: Seq<Flight>,
    ms: Seq<(i32, MonitoringClient)>,
    request: Request,
    now: u64,
    client_addr: Option<ClientAddr>,
    fs2: Seq<Flight>,
    ms2: Seq<(i32, MonitoringClient)>,
    resp: Response,
    pushes: Seq<(ClientAddr, FlightUpdate)>,
) -> bool {
    let cleaned = live(ms, now);
    match request {
        Request::QueryFlightIds { source, destination } => {
            let ids = matching_ids(fs, source@, destination@);
            &&& fs2 == fs
            &&& ms2 == cleaned
            &&& pushes.len() == 0
            &&& ids.len() == 0 ==> (resp matches Response::Error(m) && m@ == EngineError::NoMatchingFlights.text())
            &&& ids.len() > 0 ==> (resp matches Response::FlightIds(v) && v@ == ids)
        },
        Request::QueryFlightDetails { flight_id } => {
            let k = find(fs, flight_id);
            &&& fs2 == fs
            &&& ms2 == cleaned
            &&& pushes.len() == 0
            &&& k < 0 ==> (resp matches Response::Error(m) && m@ == EngineError::FlightNotFound.text())
            &&& k >= 0 ==> resp == Response::FlightDetails {
                departure_time: Some(fs[k].departure_time),
                airfare: Some(fs[k].airfare),
                seats_available: Some(fs[k].seats_available),
            }
        },
        Request::ReserveSeats { flight_id, seats } => {
            let outcome = reserve_outcome(fs, flight_id, seats);
            &&& fs2 == reserve_table(fs, flight_id, seats)
            &&& ms2 == cleaned
            &&& outcome is Ok ==> (resp matches Response::Reservation(Ok(_)))
            &&& outcome matches Err(e) ==> (resp matches Response::Reservation(Err(m)) && m@ == e.text())
            &&& pushes == if outcome is Ok && seats > 0 {
                updates_for(cleaned, flight_id, fs2[find(fs, flight_id)].seats_available)
            } else {
                Seq::empty()
            }
        },
        Request::MonitorFlight { flight_id, monitor_interval } => {
            let outcome = if find(fs, flight_id) < 0 {
                Err(EngineError::FlightNotFound)
            } else if monitor_interval < 0 {
                Err(EngineError::InvalidInterval)
            } else {
                Ok(())
            };
            &&& fs2 == fs
            &&& pushes.len() == 0
            &&& outcome is Ok ==> (resp matches Response::MonitoringStarted(Ok(_)))
                && ms2 == subscribe(cleaned, (flight_id, MonitoringClient {
                    addr: client_addr->Some_0,
                    expiration_time: expiry(now, monitor_interval),
                }))
            &&& outcome matches Err(e) ==> (resp matches Response::MonitoringStarted(Err(m)) && m@ == e.text())
                && ms2 == cleaned
        },
    }
}

/// The flight table after the reservations `ops` (flight id, seats), in turn, whether each
/// succeeds or not.
pub open spec fn reserve_all(fs: Seq<Flight>, ops: Seq<(i32, i32)>) -> Seq<Flight>
    decreases ops.len(),
{
    if ops.len() == 0 {
        fs
    } else {
        let before = reserve_all(fs, ops.drop_last());
        reserve_table(before, ops.last().0, ops.last().1)
    }
}

/// A reservation that succeeds lowers the availability of its flight by exactly the seats
/// requested, to no less than zero, and changes nothing else; one that fails changes nothing.
pub proof fn lemma_reserve_exact(fs: Seq<Flight>, id: i32, seats: i32)
    requires
        ids_unique(fs),
        seats_valid(fs),
    ensures
        ids_unique(reserve_table(fs, id, seats)),
        seats_valid(reserve_table(fs, id, seats)),
        reserve_table(fs, id, seats).len() == fs.len(),
        reserve_outcome(fs, id, seats) is Err ==> reserve_table(fs, id, seats) == fs,
        reserve_outcome(fs, id, seats) is Ok ==> {
            let k = find(fs, id);
            let after = reserve_table(fs, id, seats);
            &&& 0 <= k < fs.len()
            &&& fs[k].flight_id == id
            &&& after[k].seats_available == fs[k].seats_available - seats
            &&& after[k].seats_available >= 0
            &&& after[k] == with_seats(fs[k], after[k].seats_available)
            &&& forall|j: int| 0 <= j < fs.len() && j != k ==> after[j] == fs[j]
        },
{
    if reserve_outcome(fs, id, seats) is Ok {
        let k = find(fs, id);
        assert(exists|i: int| 0 <= i < fs.len() && fs[i].flight_id == id);
        let after = reserve_table(fs, id, seats);
        assert forall|i: int| 0 <= i < after.len() implies (#[trigger] after[i]).seats_available >= 0 by {
            if i != k {
                assert(after[i] == fs[i]);
            }
        }
    }
}

/// However many reservations are applied, and in whatever order, no flight's availability
/// ever goes negative and flight ids stay unique.
pub proof fn lemma_seats_never_negative(fs: Seq<Flight>, ops: Seq<(i32, i32)>)
    requires
        ids_unique(fs),
        seats_valid(fs),
    ensures
        ids_unique(reserve_all(fs, ops)),
        seats_valid(reserve_all(fs, ops)),
    decreases ops.len(),
{
    if ops.len() > 0 {
        lemma_seats_never_negative(fs, ops.drop_last());
        lemma_reserve_exact(reserve_all(fs, ops.drop_last()), ops.last().0, ops.last().1);
    }
}

/// The sweep keeps only subscriptions of `ms`, and drops every one that expired before `now`.
pub proof fn lemma_live_subset(ms: Seq<(i32, MonitoringClient)>, now: u64)
    ensures
        forall|i: int| 0 <= i < live(ms, now).len() ==> ms.contains(#[trigger] live(ms, now)[i]) && live(ms, now)[i].1.expiration_time > now,
    decreases ms.len(),
{
    if ms.len() > 0 {
        lemma_live_subset(ms.drop_last(), now);
        let r = live(ms.drop_last(), now);
        assert forall|i: int| 0 <= i < live(ms, now).len() implies ms.contains(#[trigger] live(ms, now)[i]) && live(ms, now)[i].1.expiration_time > now by {
            if i < r.len() {
                assert(live(ms, now)[i] == r[i]);
                let j = choose|j: int| 0 <= j < ms.drop_last().len() && ms.drop_last()[j] == r[i];
                assert(ms[j] == r[i]);
            } else {
                assert(live(ms, now)[i] == ms.last());
                assert(ms[ms.len() - 1] == ms.last());
            }
        }
    }
}

/// Some subscription of `ms` to flight `id` is from `addr`.
pub open spec fn subscribed(ms: Seq<(i32, MonitoringClient)>, id: i32, addr: ClientAddr) -> bool {
    exists|j: int| 0 <= j < ms.len() && ms[j].0 == id && ms[j].1.addr == addr
}

/// Every update in `updates_for(ms, id, seats)` goes to the address of a subscription of `ms`
/// to flight `id`.
pub proof fn lemma_updates_from(ms: Seq<(i32, MonitoringClient)>, id: i32, seats: i32)
    ensures
        forall|i: int| 0 <= i < updates_for(ms, id, seats).len() ==> subscribed(ms, id, (#[trigger] updates_for(ms, id, seats)[i]).0),
    decreases ms.len(),
{
    if ms.len() > 0 {
        lemma_updates_from(ms.drop_last(), id, seats);
        let r = updates_for(ms.drop_last(), id, seats);
        assert forall|i: int| 0 <= i < updates_for(ms, id, seats).len() implies subscribed(ms, id, (#[trigger] updates_for(ms, id, seats)[i]).0) by {
            if i < r.len() {
                assert(updates_for(ms, id, seats)[i] == r[i]);
                assert(subscribed(ms.drop_last(), id, r[i].0));
                let j = choose|j: int| 0 <= j < ms.drop_last().len() && ms.drop_last()[j].0 == id && ms.drop_last()[j].1.addr == r[i].0;
                assert(ms[j] == ms.drop_last()[j]);
            } else {
                assert(ms[ms.len() - 1] == ms.last());
            }
        }
    } else {
        assert(updates_for(ms, id, seats).len() == 0);
    }
}

/// A client all of whose subscriptions to a flight expired before `now` gets no update of that
/// flight from a reservation handled at `now`: the sweep has dropped them first.
pub proof fn lemma_expired_gets_no_push(ms: Seq<(i32, MonitoringClient)>, now: u64, id: i32, seats: i32, addr: ClientAddr)
    requires
        forall|j: int| 0 <= j < ms.len() && ms[j].0 == id && ms[j].1.addr == addr ==> (#[trigger] ms[j]).1.expiration_time < now,
    ensures
        forall|i: int| 0 <= i < updates_for(live(ms, now), id, seats).len() ==> (#[trigger] updates_for(live(ms, now), id, seats)[i]).0 != addr,
{
    let l = live(ms, now);
    lemma_live_subset(ms, now);
    lemma_updates_from(l, id, seats);
    assert forall|i: int| 0 <= i < updates_for(l, id, seats).len() implies (#[trigger] updates_for(l, id, seats)[i]).0 != addr by {
        assert(subscribed(l, id, updates_for(l, id, seats)[i].0));
        let j = choose|j: int| 0 <= j < l.len() && l[j].0 == id && l[j].1.addr == updates_for(l, id, seats)[i].0;
        assert(ms.contains(l[j]));
    }
}

/// The flight table and the registry of subscriptions to flight updates.
pub struct FlightController {
    pub flights: Vec<Flight>,
    pub monitoring_clients: Vec<(i32, MonitoringClient)>,
}

impl FlightController {
    /// The subscriptions, in the order they were made.
    pub open spec fn monitors(&self) -> Seq<(i32, MonitoringClient)> {
        self.monitoring_clients@
    }

    /// Flight ids are unique and no flight has negative availability.
    pub open spec fn wf(&self) -> bool {
        ids_unique(self.flights@) && seats_valid(self.flights@)
    }

    /// An engine with no flights and no subscriptions.
    pub fn new() -> (r: FlightController)
        ensures
            r.wf(),
            r.flights@.len() == 0,
            r.monitors().len() == 0,
    {
        FlightController { flights: Vec::new(), monitoring_clients: Vec::new() }
    }

    /// Position of flight `flight_id` in the table.
    fn position(&self, flight_id: i32) -> (r: Option<usize>)
        requires
            ids_unique(self.flights@),
        ensures
            r matches Some(i) ==> i == find(self.flights@, flight_id) && i < self.flights@.len(),
            r is None ==> find(self.flights@, flight_id) == -1,
    {
        let mut i: usize = 0;
        while i < self.flights.len()
            invariant
                i <= self.flights@.len(),
                ids_unique(self.flights@),
                forall|j: int| 0 <= j < i ==> (#[trigger] self.flights@[j]).flight_id != flight_id,
            decreases self.flights@.len() - i,
        {
            if self.flights[i].flight_id == flight_id {
                proof {
                    let fs = self.flights@;
                    assert(exists|k: int| 0 <= k < fs.len() && fs[k].flight_id == flight_id);
                    let c = choose|k: int| 0 <= k < fs.len() && fs[k].flight_id == flight_id;
                    assert(0 <= c < fs.len() && fs[c].flight_id == flight_id);
                    assert(fs[c].flight_id == fs[i as int].flight_id);
                    assert(c == i as int);
                    assert(find(fs, flight_id) == c);
                }
                return Some(i);
            }
            i = i + 1;
        }
        None
    }

    /// The flight table.
    pub fn flights(&self) -> (r: &Vec<Flight>)
        ensures
            r@ == self.flights@,
    {
        &self.flights
    }

    /// Adds `flight`, replacing the flight with the same id if there is one.
    pub fn add_flight(&mut self, flight: Flight)
        requires
            old(self).wf(),
            flight.seats_available >= 0,
        ensures
            final(self).wf(),
            final(self).monitors() == old(self).monitors(),
            find(old(self).flights@, flight.flight_id) >= 0 ==> final(self).flights@ == old(self).flights@.update(
                find(old(self).flights@, flight.flight_id),
                flight,
            ),
            find(old(self).flights@, flight.flight_id) < 0 ==> final(self).flights@ == old(self).flights@.push(flight),
    {
        let ghost id = flight.flight_id;
        match self.position(flight.flight_id) {
            Some(i) => {
                self.flights.set(i, flight);
            },
            None => {
                self.flights.push(flight);
                assert(forall|j: int| 0 <= j < old(self).flights@.len() ==> old(self).flights@[j].flight_id != id);
            },
        }
    }

    /// Ids of the flights from `source` to `destination`, in table order.
    pub fn query_flight_ids(&self, source: &str, destination: &str) -> (r: Vec<i32>)
        ensures
            r@ == matching_ids(self.flights@, source@, destination@),
    {
        let s = String::from_str(source);
        let d = String::from_str(destination);
        let mut ids: Vec<i32> = Vec::new();
        let mut i: usize = 0;
        while i < self.flights.len()
            invariant
                i <= self.flights@.len(),
                s@ == source@,
                d@ == destination@,
                ids@ == matching_ids(self.flights@.take(i as int), source@, destination@),
            decreases self.flights@.len() - i,
        {
            assert(self.flights@.take(i as int + 1).drop_last() =~= self.flights@.take(i as int));
            if self.flights[i].source == s && self.flights[i].destination == d {
                ids.push(self.flights[i].flight_id);
            }
            i = i + 1;
        }
        assert(self.flights@.take(i as int) =~= self.flights@);
        ids
    }

    /// Takes `seats` seats of flight `flight_id` if it has that many available.
    pub fn reserve_seats(&mut self, flight_id: i32, seats: i32) -> (r: Result<(), EngineError>)
        requires
            old(self).wf(),
        ensures
            final(self).wf(),
            r == reserve_outcome(old(self).flights@, flight_id, seats),
            final(self).flights@ == reserve_table(old(self).flights@, flight_id, seats),
            final(self).monitors() == old(self).monitors(),
    {
        match self.position(flight_id) {
            Some(i) => {
                if seats < 0 {
                    return Err(EngineError::InvalidSeatCount);
                }
                if self.flights[i].seats_available >= seats {
                    let n = self.flights[i].seats_available - seats;
                    self.flights[i].seats_available = n;
                    assert(self.flights@ =~= reserve_table(old(self).flights@, flight_id, seats));
                    assert(seats_valid(self.flights@));
                    assert(ids_unique(self.flights@));
                    Ok(())
                } else {
                    Err(EngineError::NotEnoughSeats)
                }
            },
            None => Err(EngineError::FlightNotFound),
        }
    }

    /// Departure, fare and availability of flight `flight_id`.
    pub fn query_flight_details(&self, flight_id: i32) -> (r: Option<(i64, u64, i32)>)
        requires
            self.wf(),
        ensures
            find(self.flights@, flight_id) < 0 ==> r is None,
            find(self.flights@, flight_id) >= 0 ==> r == Some((
                self.flights@[find(self.flights@, flight_id)].departure_time,
                self.flights@[find(self.flights@, flight_id)].airfare,
                self.flights@[find(self.flights@, flight_id)].seats_available,
            )),
    {
        match self.position(flight_id) {
            Some(i) => Some((self.flights[i].departure_time, self.flights[i].airfare, self.flights[i].seats_available)),
            None => None,
        }
    }

    /// Subscribes `client_addr` to updates of flight `flight_id` for `monitor_interval`
    /// seconds from `now` (milliseconds). The same subscription made twice is held once.
    pub fn start_monitoring(&mut self, flight_id: i32, monitor_interval: i32, client_addr: ClientAddr, now: u64) -> (r: Result<(), EngineError>)
        requires
            old(self).wf(),
        ensures
            final(self).wf(),
            final(self).flights@ == old(self).flights@,
            find(old(self).flights@, flight_id) < 0 ==> r == Err::<(), EngineError>(EngineError::FlightNotFound),
            find(old(self).flights@, flight_id) >= 0 && monitor_interval < 0 ==> r == Err::<(), EngineError>(EngineError::InvalidInterval),
            find(old(self).flights@, flight_id) >= 0 && monitor_interval >= 0 ==> r is Ok,
            r is Ok ==> final(self).monitors() == subscribe(
                old(self).monitors(),
                (flight_id, MonitoringClient { addr: client_addr, expiration_time: expiry(now, monitor_interval) }),
            ),
            r is Err ==> final(self).monitors() == old(self).monitors(),
    {
        if self.position(flight_id).is_none() {
            return Err(EngineError::FlightNotFound);
        }
        if monitor_interval < 0 {
            return Err(EngineError::InvalidInterval);
        }
        let span = (monitor_interval as u64) * 1000;
        let expiration_time = if now > u64::MAX - span { u64::MAX } else { now + span };
        let entry = (flight_id, MonitoringClient { addr: client_addr, expiration_time });
        let mut i: usize = 0;
        while i < self.monitoring_clients.len()
            invariant
                i <= self.monitoring_clients@.len(),
                self.monitoring_clients@ == old(self).monitoring_clients@,
                self.flights@ == old(self).flights@,
                old(self).wf(),
                find(old(self).flights@, flight_id) >= 0,
                monitor_interval >= 0,
                entry == (flight_id, MonitoringClient { addr: client_addr, expiration_time: expiry(now, monitor_interval) }),
                forall|j: int| 0 <= j < i ==> #[trigger] self.monitoring_clients@[j] != entry,
            decreases self.monitoring_clients@.len() - i,
        {
            let present = self.monitoring_clients[i].0 == entry.0 && self.monitoring_clients[i].1 == entry.1;
            if present {
                assert(self.monitoring_clients@[i as int] == entry);
                return Ok(());
            }
            i = i + 1;
        }
        assert(!self.monitoring_clients@.contains(entry));
        self.monitoring_clients.push(entry);
        Ok(())
    }

    /// One update with the current availability of flight `flight_id` for each of its
    /// subscriptions, in the order they were made; none where there is no such flight.
    pub fn prepare_monitoring_updates(&self, flight_id: i32) -> (r: Vec<(ClientAddr, FlightUpdate)>)
        requires
            self.wf(),
        ensures
            find(self.flights@, flight_id) < 0 ==> r@.len() == 0,
            find(self.flights@, flight_id) >= 0 ==> r@ == updates_for(
                self.monitors(),
                flight_id,
                self.flights@[find(self.flights@, flight_id)].seats_available,
            ),
    {
        let mut updates: Vec<(ClientAddr, FlightUpdate)> = Vec::new();
        let k = match self.position(flight_id) {
            Some(k) => k,
            None => return updates,
        };
        let seats = self.flights[k].seats_available;
        let mut i: usize = 0;
        while i < self.monitoring_clients.len()
            invariant
                i <= self.monitoring_clients@.len(),
                updates@ == updates_for(self.monitoring_clients@.take(i as int), flight_id, seats),
            decreases self.monitoring_clients@.len() - i,
        {
            assert(self.monitoring_clients@.take(i as int + 1).drop_last() =~= self.monitoring_clients@.take(i as int));
            if self.monitoring_clients[i].0 == flight_id {
                updates.push((self.monitoring_clients[i].1.addr, FlightUpdate { flight_id, seats_available: seats }));
            }
            i = i + 1;
        }
        assert(self.monitoring_clients@.take(i as int) =~= self.monitoring_clients@);
        updates
    }

    /// Drops the subscriptions that have expired at `now`.
    pub fn clean_expired_monitors(&mut self, now: u64)
        ensures
            final(self).flights@ == old(self).flights@,
            final(self).monitors() == live(old(self).monitors(), now),
    {
        let mut kept: Vec<(i32, MonitoringClient)> = Vec::new();
        let mut i: usize = 0;
        while i < self.monitoring_clients.len()
            invariant
                i <= self.monitoring_clients@.len(),
                self.monitoring_clients@ == old(self).monitoring_clients@,
                kept@ == live(self.monitoring_clients@.take(i as int), now),
            decreases self.monitoring_clients@.len() - i,
        {
            assert(self.monitoring_clients@.take(i as int + 1).drop_last() =~= self.monitoring_clients@.take(i as int));
            if self.monitoring_clients[i].1.expiration_time > now {
                kept.push(self.monitoring_clients[i]);
            }
            i = i + 1;
        }
        assert(self.monitoring_clients@.take(i as int) =~= self.monitoring_clients@);
        self.monitoring_clients = kept;
    }

    /// Handles `request` at `now` (milliseconds): drops the expired subscriptions first, then
    /// performs the request. Gives the response and the updates to push to subscribers: after a
    /// successful reservation of at least one seat, one for each live subscription to the flight.
    pub fn handle_request(&mut self, request: Request, now: u64, client_addr: Option<ClientAddr>) -> (r: (Response, Vec<(ClientAddr, FlightUpdate)>))
        requires
            old(self).wf(),
            request is MonitorFlight ==> client_addr is Some,
        ensures
            final(self).wf(),
            handled(old(self).flights@, old(self).monitors(), request, now, client_addr, final(self).flights@, final(self).monitors(), r.0, r.1@),
    {
        self.clean_expired_monitors(now);
        match request {
            Request::QueryFlightIds { source, destination } => {
                let ids = self.query_flight_ids(source.as_str(), destination.as_str());
                if ids.len() == 0 {
                    (Response::Error(EngineError::NoMatchingFlights.message()), Vec::new())
                } else {
                    (Response::FlightIds(ids), Vec::new())
                }
            },
            Request::QueryFlightDetails { flight_id } => {
                match self.query_flight_details(flight_id) {
                    Some((departure_time, airfare, seats_available)) => (
                        Response::FlightDetails {
                            departure_time: Some(departure_time),
                            airfare: Some(airfare),
                            seats_available: Some(seats_available),
                        },
                        Vec::new(),
                    ),
                    None => (Response::Error(EngineError::FlightNotFound.message()), Vec::new()),
                }
            },
            Request::ReserveSeats { flight_id, seats } => {
                match self.reserve_seats(flight_id, seats) {
                    Ok(()) => {
                        let pushes = if seats > 0 {
                            self.prepare_monitoring_updates(flight_id)
                        } else {
                            Vec::new()
                        };
                        (Response::Reservation(Ok(())), pushes)
                    },
                    Err(e) => (Response::Reservation(Err(e.message())), Vec::new()),
                }
            },
            Request::MonitorFlight { flight_id, monitor_interval } => {
                let addr = client_addr.unwrap();
                match self.start_monitoring(flight_id, monitor_interval, addr, now) {
                    Ok(()) => (Response::MonitoringStarted(Ok(())), Vec::new()),
                    Err(e) => (Response::MonitoringStarted(Err(e.message())), Vec::new()),
                }
            },
        }
    }
}

} // verus!
