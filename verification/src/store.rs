//! The reservation store.
//!
//! An in-memory, transactional model of the flight and reservation
//! tables: the six primitives the handlers invoke, each with an exact
//! contract over the store's mathematical state. The store keeps one
//! row per flight identifier and one reservation per
//! `(flight, client)` pair ([`DatabaseService::wf`]); a mutation either
//! commits completely or leaves the store untouched.
//!
//! Reservations are keyed on the client's address string as the
//! transport reports it. Counter-style fields use checked arithmetic:
//! an update that would overflow a 32-bit count is refused as a
//! backend failure ([`StoreError`]) with the store unchanged.

use vstd::prelude::*;

verus! {

broadcast use vstd::std_specs::vec::group_vec_axioms, vstd::seq::group_seq_axioms;

/// A backend failure: an update the store cannot represent.
#[derive(Clone, Copy, PartialEq, Eq, Structural, Debug)]
pub struct StoreError;

/// One flight row. The fare is kept in hundredths, exactly as the
/// wire format carries it.
#[derive(Debug, PartialEq)]
pub struct Flight {
    pub id: u32,
    pub source: String,
    pub destination: String,
    pub departure_time: i32,
    pub seat_available: u32,
    pub airfare_cents: u32,
}

/// Mathematical value of a flight row.
pub struct FlightV {
    pub id: u32,
    pub source: Seq<char>,
    pub destination: Seq<char>,
    pub departure_time: i32,
    pub seat_available: u32,
    pub airfare_cents: u32,
}

impl View for Flight {
    type V = FlightV;

    open spec fn view(&self) -> FlightV {
        FlightV {
            id: self.id,
            source: self.source@,
            destination: self.destination@,
            departure_time: self.departure_time,
            seat_available: self.seat_available,
            airfare_cents: self.airfare_cents,
        }
    }
}

impl Flight {
    pub fn new(
        id: u32,
        source: &str,
        destination: &str,
        departure_time: i32,
        seat_available: u32,
        airfare_cents: u32,
    ) -> (r: Flight)
        ensures
            r@ == (FlightV {
                id,
                source: source@,
                destination: destination@,
                departure_time,
                seat_available,
                airfare_cents,
            }),
    {
        Flight {
            id,
            source: source.to_owned(),
            destination: destination.to_owned(),
            departure_time,
            seat_available,
            airfare_cents,
        }
    }

    /// A field-for-field copy.
    pub fn duplicate(&self) -> (r: Flight)
        ensures
            r@ == self@,
    {
        Flight {
            id: self.id,
            source: self.source.clone(),
            destination: self.destination.clone(),
            departure_time: self.departure_time,
            seat_available: self.seat_available,
            airfare_cents: self.airfare_cents,
        }
    }
}

/// One reservation row, keyed on flight and client address.
#[derive(Debug, PartialEq)]
pub struct Reservation {
    pub id: u32,
    pub flight_id: u32,
    pub client_ip: String,
    pub seat_reserved: u32,
    pub luggage_amount: u32,
}

/// Mathematical value of a reservation row.
pub struct ReservationV {
    pub id: u32,
    pub flight_id: u32,
    pub client_ip: Seq<char>,
    pub seat_reserved: u32,
    pub luggage_amount: u32,
}

impl View for Reservation {
    type V = ReservationV;

    open spec fn view(&self) -> ReservationV {
        ReservationV {
            id: self.id,
            flight_id: self.flight_id,
            client_ip: self.client_ip@,
            seat_reserved: self.seat_reserved,
            luggage_amount: self.luggage_amount,
        }
    }
}

impl Reservation {
    /// A fresh reservation carries no luggage yet.
    pub fn new(id: u32, flight_id: u32, client_ip: &str, seat_reserved: u32) -> (r: Reservation)
        ensures
            r@ == (ReservationV {
                id,
                flight_id,
                client_ip: client_ip@,
                seat_reserved,
                luggage_amount: 0,
            }),
    {
        Reservation {
            id,
            flight_id,
            client_ip: client_ip.to_owned(),
            seat_reserved,
            luggage_amount: 0,
        }
    }

    /// A field-for-field copy.
    pub fn duplicate(&self) -> (r: Reservation)
        ensures
            r@ == self@,
    {
        Reservation {
            id: self.id,
            flight_id: self.flight_id,
            client_ip: self.client_ip.clone(),
            seat_reserved: self.seat_reserved,
            luggage_amount: self.luggage_amount,
        }
    }
}

/// Outcome of a reservation attempt.
#[derive(Clone, Copy, PartialEq, Eq, Structural, Debug)]
pub enum ReservationStatus {
    InvalidFlightID,
    InsufficientCapacity,
    ZeroSeatReserved,
    Created,
    Updated,
}

/// Outcome of a cancellation.
#[derive(Clone, Copy, PartialEq, Eq, Structural, Debug)]
pub enum CancellationStatus {
    ReservationNotExisted,
    Success,
}

/// Outcome of a luggage purchase.
#[derive(Clone, Copy, PartialEq, Eq, Structural, Debug)]
pub enum BuyLuggageStatus {
    ReservationNotExisted,
    Success,
}

impl ReservationStatus {
    /// The human-readable message of this outcome.
    pub fn message(&self) -> (r: String)
        ensures
            *self == ReservationStatus::InvalidFlightID ==> r@ == "Flight not found"@,
            *self == ReservationStatus::InsufficientCapacity ==> r@ == "Not enough seat"@,
            *self == ReservationStatus::ZeroSeatReserved ==> r@
                == "Seat reserved should be greater"@,
            *self == ReservationStatus::Created ==> r@ == "Reservation created"@,
            *self == ReservationStatus::Updated ==> r@ == "Reservation updated"@,
    {
        match self {
            ReservationStatus::InvalidFlightID => String::from_str("Flight not found"),
            ReservationStatus::InsufficientCapacity => String::from_str("Not enough seat"),
            ReservationStatus::ZeroSeatReserved => String::from_str(
                "Seat reserved should be greater",
            ),
            ReservationStatus::Created => String::from_str("Reservation created"),
            ReservationStatus::Updated => String::from_str("Reservation updated"),
        }
    }
}

impl CancellationStatus {
    /// The human-readable message of this outcome.
    pub fn message(&self) -> (r: String)
        ensures
            *self == CancellationStatus::ReservationNotExisted ==> r@ == "Reservation not found"@,
            *self == CancellationStatus::Success ==> r@ == "Reservation successfully cancelled"@,
    {
        match self {
            CancellationStatus::ReservationNotExisted => String::from_str("Reservation not found"),
            CancellationStatus::Success => String::from_str("Reservation successfully cancelled"),
        }
    }
}

impl BuyLuggageStatus {
    /// The human-readable message of this outcome.
    pub fn message(&self) -> (r: String)
        ensures
            *self == BuyLuggageStatus::ReservationNotExisted ==> r@ == "Reservation not found"@,
            *self == BuyLuggageStatus::Success ==> r@ == "Luggage successfully bought"@,
    {
        match self {
            BuyLuggageStatus::ReservationNotExisted => String::from_str("Reservation not found"),
            BuyLuggageStatus::Success => String::from_str("Luggage successfully bought"),
        }
    }
}

/// Mathematical state of the store.
pub struct DbView {
    pub flights: Seq<FlightV>,
    pub reservations: Seq<ReservationV>,
}

/// The in-memory reservation store.
pub struct DatabaseService {
    pub flights: Vec<Flight>,
    pub reservations: Vec<Reservation>,
    pub next_reservation_id: u32,
}

impl View for DatabaseService {
    type V = DbView;

    open spec fn view(&self) -> DbView {
        DbView {
            flights: Seq::new(self.flights@.len(), |i: int| self.flights@[i]@),
            reservations: Seq::new(self.reservations@.len(), |i: int| self.reservations@[i]@),
        }
    }
}

/// Index of the first flight row with this id, or -1.
pub open spec fn flight_idx(flights: Seq<FlightV>, id: u32) -> int
    decreases flights,
{
    if flights.len() == 0 {
        -1
    } else if flights.first().id == id {
        0
    } else {
        let r = flight_idx(flights.drop_first(), id);
        if r < 0 {
            -1
        } else {
            r + 1
        }
    }
}

pub proof fn lemma_flight_idx(flights: Seq<FlightV>, id: u32)
    ensures
        flight_idx(flights, id) == -1 ==> forall|j: int|
            0 <= j < flights.len() ==> flights[j].id != id,
        flight_idx(flights, id) >= 0 ==> 0 <= flight_idx(flights, id) < flights.len() && flights[
            flight_idx(flights, id)
        ].id == id && forall|j: int| 0 <= j < flight_idx(flights, id) ==> flights[j].id != id,
    decreases flights,
{
    if flights.len() > 0 && flights.first().id != id {
        lemma_flight_idx(flights.drop_first(), id);
        assert(forall|j: int|
            1 <= j < flights.len() ==> #[trigger] flights[j] == flights.drop_first()[j - 1]);
    }
}

/// What booking resolves to, as a function of the store's state.
pub open spec fn reserve_status(
    db: DbView,
    flight_id: u32,
    client: Seq<char>,
    num_seat: u32,
) -> Result<ReservationStatus, StoreError> {
    let fi = flight_idx(db.flights, flight_id);
    let ri = reservation_idx(db.reservations, flight_id, client);
    if num_seat == 0 {
        Ok(ReservationStatus::ZeroSeatReserved)
    } else if fi == -1 {
        Ok(ReservationStatus::InvalidFlightID)
    } else if db.flights[fi].seat_available < num_seat {
        Ok(ReservationStatus::InsufficientCapacity)
    } else if ri >= 0 {
        if db.reservations[ri].seat_reserved + num_seat > u32::MAX {
            Err(StoreError)
        } else {
            Ok(ReservationStatus::Updated)
        }
    } else {
        Ok(ReservationStatus::Created)
    }
}

/// The store's state after a booking attempt; unchanged unless the
/// attempt succeeded.
pub open spec fn reserve_next(
    db: DbView,
    next_rid: u32,
    flight_id: u32,
    client: Seq<char>,
    num_seat: u32,
) -> DbView {
    let fi = flight_idx(db.flights, flight_id);
    let ri = reservation_idx(db.reservations, flight_id, client);
    match reserve_status(db, flight_id, client, num_seat) {
        Err(_) => db,
        Ok(st) => if st == ReservationStatus::Updated {
            DbView {
                flights: db.flights.update(
                    fi,
                    FlightV {
                        seat_available: (db.flights[fi].seat_available - num_seat) as u32,
                        ..db.flights[fi]
                    },
                ),
                reservations: db.reservations.update(
                    ri,
                    ReservationV {
                        seat_reserved: (db.reservations[ri].seat_reserved + num_seat) as u32,
                        ..db.reservations[ri]
                    },
                ),
            }
        } else if st == ReservationStatus::Created {
            DbView {
                flights: db.flights.update(
                    fi,
                    FlightV {
                        seat_available: (db.flights[fi].seat_available - num_seat) as u32,
                        ..db.flights[fi]
                    },
                ),
                reservations: db.reservations.push(
                    ReservationV {
                        id: next_rid,
                        flight_id,
                        client_ip: client,
                        seat_reserved: num_seat,
                        luggage_amount: 0,
                    },
                ),
            }
        } else {
            db
        },
    }
}

/// What cancelling resolves to, as a function of the store's state.
pub open spec fn cancel_status(db: DbView, flight_id: u32, client: Seq<char>) -> Result<
    CancellationStatus,
    StoreError,
> {
    let fi = flight_idx(db.flights, flight_id);
    let ri = reservation_idx(db.reservations, flight_id, client);
    if ri == -1 {
        Ok(CancellationStatus::ReservationNotExisted)
    } else if fi >= 0 && db.flights[fi].seat_available + db.reservations[ri].seat_reserved
        > u32::MAX {
        Err(StoreError)
    } else {
        Ok(CancellationStatus::Success)
    }
}

/// The store's state after a cancellation; the seats return to the
/// flight when it still exists, and the reservation row goes away.
pub open spec fn cancel_next(db: DbView, flight_id: u32, client: Seq<char>) -> DbView {
    let fi = flight_idx(db.flights, flight_id);
    let ri = reservation_idx(db.reservations, flight_id, client);
    if cancel_status(db, flight_id, client) == Ok::<CancellationStatus, StoreError>(
        CancellationStatus::Success,
    ) {
        DbView {
            flights: if fi >= 0 {
                db.flights.update(
                    fi,
                    FlightV {
                        seat_available: (db.flights[fi].seat_available
                            + db.reservations[ri].seat_reserved) as u32,
                        ..db.flights[fi]
                    },
                )
            } else {
                db.flights
            },
            reservations: db.reservations.remove(ri),
        }
    } else {
        db
    }
}

/// What buying luggage resolves to.
pub open spec fn luggage_status(
    db: DbView,
    flight_id: u32,
    client: Seq<char>,
    amount_in_kg: u32,
) -> Result<BuyLuggageStatus, StoreError> {
    let ri = reservation_idx(db.reservations, flight_id, client);
    if ri == -1 {
        Ok(BuyLuggageStatus::ReservationNotExisted)
    } else if db.reservations[ri].luggage_amount + amount_in_kg > u32::MAX {
        Err(StoreError)
    } else {
        Ok(BuyLuggageStatus::Success)
    }
}

/// The store's state after a luggage purchase.
pub open spec fn luggage_next(db: DbView, flight_id: u32, client: Seq<char>, amount_in_kg: u32)
    -> DbView {
    let ri = reservation_idx(db.reservations, flight_id, client);
    if luggage_status(db, flight_id, client, amount_in_kg) == Ok::<BuyLuggageStatus, StoreError>(
        BuyLuggageStatus::Success,
    ) {
        DbView {
            flights: db.flights,
            reservations: db.reservations.update(
                ri,
                ReservationV {
                    luggage_amount: (db.reservations[ri].luggage_amount + amount_in_kg) as u32,
                    ..db.reservations[ri]
                },
            ),
        }
    } else {
        db
    }
}

/// The ids of the flights between `src` and `dst`, in table order.
pub open spec fn matching_ids(flights: Seq<FlightV>, src: Seq<char>, dst: Seq<char>) -> Seq<u32>
    decreases flights,
{
    if flights.len() == 0 {
        Seq::empty()
    } else {
        let rest = matching_ids(flights.drop_last(), src, dst);
        if flights.last().source == src && flights.last().destination == dst {
            rest.push(flights.last().id)
        } else {
            rest
        }
    }
}

/// Index of the first reservation row for this flight and client,
/// or -1.
pub open spec fn reservation_idx(rs: Seq<ReservationV>, flight_id: u32, client: Seq<char>) -> int
    decreases rs,
{
    if rs.len() == 0 {
        -1
    } else if rs.first().flight_id == flight_id && rs.first().client_ip == client {
        0
    } else {
        let r = reservation_idx(rs.drop_first(), flight_id, client);
        if r < 0 {
            -1
        } else {
            r + 1
        }
    }
}

pub proof fn lemma_reservation_idx(rs: Seq<ReservationV>, flight_id: u32, client: Seq<char>)
    ensures
        reservation_idx(rs, flight_id, client) == -1 ==> forall|j: int|
            0 <= j < rs.len() ==> !(rs[j].flight_id == flight_id && rs[j].client_ip == client),
        reservation_idx(rs, flight_id, client) >= 0 ==> 0 <= reservation_idx(
            rs,
            flight_id,
            client,
        ) < rs.len() && rs[reservation_idx(rs, flight_id, client)].flight_id == flight_id && rs[
            reservation_idx(rs, flight_id, client)
        ].client_ip == client && forall|j: int|
            0 <= j < reservation_idx(rs, flight_id, client) ==> !(rs[j].flight_id == flight_id
                && rs[j].client_ip == client),
    decreases rs,
{
    if rs.len() > 0 && !(rs.first().flight_id == flight_id && rs.first().client_ip == client) {
        lemma_reservation_idx(rs.drop_first(), flight_id, client);
        assert(forall|j: int| 1 <= j < rs.len() ==> #[trigger] rs[j] == rs.drop_first()[j - 1]);
    }
}

impl DatabaseService {
    /// One row per flight id; one reservation per flight and client.
    pub open spec fn wf(self) -> bool {
        (forall|i: int, j: int|
            0 <= i < j < self@.flights.len() ==> self@.flights[i].id != self@.flights[j].id)
            && (forall|i: int, j: int|
            0 <= i < j < self@.reservations.len() ==> !(self@.reservations[i].flight_id
                == self@.reservations[j].flight_id && self@.reservations[i].client_ip
                == self@.reservations[j].client_ip))
    }

    /// An empty store.
    pub fn new() -> (r: DatabaseService)
        ensures
            r@.flights == Seq::<FlightV>::empty(),
            r@.reservations == Seq::<ReservationV>::empty(),
            r.wf(),
    {
        let r = DatabaseService {
            flights: Vec::new(),
            reservations: Vec::new(),
            next_reservation_id: 1,
        };
        proof {
            assert(r@.flights =~= Seq::<FlightV>::empty());
            assert(r@.reservations =~= Seq::<ReservationV>::empty());
        }
        r
    }

    /// Appends a flight row; its id must be fresh.
    pub fn add_flight(&mut self, flight: Flight)
        requires
            old(self).wf(),
            flight_idx(old(self)@.flights, flight@.id) == -1,
        ensures
            final(self).wf(),
            final(self)@.flights == old(self)@.flights.push(flight@),
            final(self)@.reservations == old(self)@.reservations,
    {
        proof {
            lemma_flight_idx(self@.flights, flight@.id);
        }
        self.flights.push(flight);
        proof {
            assert(self@.flights =~= old(self)@.flights.push(self.flights@.last()@));
            assert(self@.reservations =~= old(self)@.reservations);
        }
    }

    /// Looks a flight up by id: the first (and only) row with it.
    pub fn get_flight_by_id(&self, id: u32) -> (r: Option<Flight>)
        ensures
            flight_idx(self@.flights, id) == -1 ==> r is None,
            flight_idx(self@.flights, id) >= 0 ==> r is Some && r.unwrap()@ == self@.flights[
                flight_idx(self@.flights, id)
            ],
    {
        proof {
            lemma_flight_idx(self@.flights, id);
        }
        let len: usize = self.flights.len();
        let mut i: usize = 0;
        while i < len
            invariant
                i <= len,
                len == self.flights@.len(),
                self@.flights.len() == len,
                forall|k: int| 0 <= k < len ==> #[trigger] self@.flights[k] == self.flights@[k]@,
                forall|j: int| 0 <= j < i ==> self@.flights[j].id != id,
            decreases len - i,
        {
            proof {
                lemma_flight_idx(self@.flights, id);
            }
            if self.flights[i].id == id {
                proof {
                    assert(self@.flights[i as int] == self.flights@[i as int]@);
                    assert(self@.flights[i as int].id == id);
                    assert(flight_idx(self@.flights, id) == i as int);
                }
                return Some(self.flights[i].duplicate());
            }
            i = i + 1;
        }
        proof {
            lemma_flight_idx(self@.flights, id);
        }
        None
    }

    /// Whether a flight with this id exists.
    pub fn is_flight_exists(&self, id: u32) -> (r: Result<bool, StoreError>)
        ensures
            r is Ok,
            r.unwrap() == (flight_idx(self@.flights, id) >= 0),
    {
        match self.get_flight_by_id(id) {
            Some(_) => Ok(true),
            None => Ok(false),
        }
    }

    /// Position of the flight row with this id.
    fn flight_pos(&self, id: u32) -> (r: Option<usize>)
        ensures
            match r {
                Some(i) => flight_idx(self@.flights, id) == i as int && i < self.flights@.len(),
                None => flight_idx(self@.flights, id) == -1,
            },
    {
        let len: usize = self.flights.len();
        let mut i: usize = 0;
        while i < len
            invariant
                i <= len,
                len == self.flights@.len(),
                self@.flights.len() == len,
                forall|k: int| 0 <= k < len ==> #[trigger] self@.flights[k] == self.flights@[k]@,
                forall|j: int| 0 <= j < i ==> self@.flights[j].id != id,
            decreases len - i,
        {
            proof {
                lemma_flight_idx(self@.flights, id);
            }
            if self.flights[i].id == id {
                proof {
                    assert(self@.flights[i as int] == self.flights@[i as int]@);
                    assert(self@.flights[i as int].id == id);
                    assert(flight_idx(self@.flights, id) == i as int);
                }
                return Some(i);
            }
            i = i + 1;
        }
        proof {
            lemma_flight_idx(self@.flights, id);
        }
        None
    }

    /// Position of the reservation row for this flight and client.
    fn reservation_pos(&self, flight_id: u32, client_ip: &String) -> (r: Option<usize>)
        ensures
            match r {
                Some(i) => reservation_idx(self@.reservations, flight_id, client_ip@) == i as int
                    && i < self.reservations@.len(),
                None => reservation_idx(self@.reservations, flight_id, client_ip@) == -1,
            },
    {
        let len: usize = self.reservations.len();
        let mut i: usize = 0;
        while i < len
            invariant
                i <= len,
                len == self.reservations@.len(),
                self@.reservations.len() == len,
                forall|k: int|
                    0 <= k < len ==> #[trigger] self@.reservations[k] == self.reservations@[k]@,
                forall|j: int|
                    0 <= j < i ==> !(self@.reservations[j].flight_id == flight_id
                        && self@.reservations[j].client_ip == client_ip@),
            decreases len - i,
        {
            proof {
                lemma_reservation_idx(self@.reservations, flight_id, client_ip@);
            }
            if self.reservations[i].flight_id == flight_id && self.reservations[i].client_ip
                == *client_ip {
                proof {
                    assert(self@.reservations[i as int] == self.reservations@[i as int]@);
                    assert(reservation_idx(self@.reservations, flight_id, client_ip@)
                        == i as int);
                }
                return Some(i);
            }
            i = i + 1;
        }
        proof {
            lemma_reservation_idx(self@.reservations, flight_id, client_ip@);
        }
        None
    }

    /// The reservation this client holds on this flight, if any.
    pub fn get_reservation_by_client(&self, flight_id: u32, client_ip: String) -> (r: Result<
        Option<Reservation>,
        StoreError,
    >)
        ensures
            r is Ok,
            reservation_idx(self@.reservations, flight_id, client_ip@) == -1 ==> r.unwrap()
                is None,
            reservation_idx(self@.reservations, flight_id, client_ip@) >= 0 ==> r.unwrap()
                is Some && r.unwrap().unwrap()@ == self@.reservations[reservation_idx(
                self@.reservations,
                flight_id,
                client_ip@,
            )],
    {
        match self.reservation_pos(flight_id, &client_ip) {
            Some(i) => {
                proof {
                    assert(self@.reservations[i as int] == self.reservations@[i as int]@);
                }
                Ok(Some(self.reservations[i].duplicate()))
            }
            None => Ok(None),
        }
    }

    /// The identifiers of the flights between `source` and
    /// `destination`, in table order.
    pub fn get_flight_ids(&self, source: String, destination: String) -> (r: Result<
        Vec<u32>,
        StoreError,
    >)
        ensures
            r is Ok,
            r.unwrap()@ == matching_ids(self@.flights, source@, destination@),
    {
        let len: usize = self.flights.len();
        let mut out: Vec<u32> = Vec::new();
        let mut i: usize = 0;
        while i < len
            invariant
                i <= len,
                len == self.flights@.len(),
                self@.flights.len() == len,
                forall|k: int| 0 <= k < len ==> #[trigger] self@.flights[k] == self.flights@[k]@,
                out@ == matching_ids(self@.flights.take(i as int), source@, destination@),
            decreases len - i,
        {
            proof {
                assert(self@.flights.take(i + 1).drop_last() =~= self@.flights.take(i as int));
                assert(self@.flights.take(i + 1).last() == self@.flights[i as int]);
            }
            if self.flights[i].source == source && self.flights[i].destination == destination {
                out.push(self.flights[i].id);
            }
            i = i + 1;
        }
        proof {
            assert(self@.flights.take(len as int) =~= self@.flights);
        }
        Ok(out)
    }

    /// Departure time, fare in hundredths and free seats of a flight.
    pub fn get_flight_info(&self, id: u32) -> (r: Result<Option<(i32, u32, u32)>, StoreError>)
        ensures
            r is Ok,
            flight_idx(self@.flights, id) == -1 ==> r.unwrap() is None,
            flight_idx(self@.flights, id) >= 0 ==> {
                let f = self@.flights[flight_idx(self@.flights, id)];
                r.unwrap() == Some((f.departure_time, f.airfare_cents, f.seat_available))
            },
    {
        match self.get_flight_by_id(id) {
            Some(f) => Ok(Some((f.departure_time, f.airfare_cents, f.seat_available))),
            None => Ok(None),
        }
    }

    /// Books `num_seat` seats on a flight for a client: refused for
    /// zero seats, an unknown flight, or not enough free seats; else
    /// the seats move from the flight to the client's reservation,
    /// which is created on first booking and topped up afterwards.
    pub fn make_reservation(&mut self, flight_id: u32, client_ip: String, num_seat: u32) -> (r:
        Result<ReservationStatus, StoreError>)
        requires
            old(self).wf(),
        ensures
            final(self).wf(),
            r == reserve_status(old(self)@, flight_id, client_ip@, num_seat),
            final(self)@ == reserve_next(
                old(self)@,
                old(self).next_reservation_id,
                flight_id,
                client_ip@,
                num_seat,
            ),
    {
        if num_seat == 0 {
            proof {
                assert(self@.flights =~= old(self)@.flights);
                assert(self@.reservations =~= old(self)@.reservations);
            }
            return Ok(ReservationStatus::ZeroSeatReserved);
        }
        let fi: usize = match self.flight_pos(flight_id) {
            None => {
                return Ok(ReservationStatus::InvalidFlightID);
            }
            Some(i) => i,
        };
        if self.flights[fi].seat_available < num_seat {
            proof {
                assert(self@.flights[fi as int] == self.flights@[fi as int]@);
            }
            return Ok(ReservationStatus::InsufficientCapacity);
        }
        proof {
            assert(self@.flights[fi as int] == self.flights@[fi as int]@);
        }
        let ri_opt: Option<usize> = self.reservation_pos(flight_id, &client_ip);
        match ri_opt {
            Some(ri) => {
                proof {
                    assert(self@.reservations[ri as int] == self.reservations@[ri as int]@);
                }
                let old_seats: u32 = self.reservations[ri].seat_reserved;
                if old_seats > u32::MAX - num_seat {
                    return Err(StoreError);
                }
                self.update_flight_seats(fi, num_seat);
                let mut resv: Reservation = self.reservations.remove(ri);
                resv.seat_reserved = old_seats + num_seat;
                self.reservations.insert(ri, resv);
                proof {
                    assert(self@.reservations =~= old(self)@.reservations.update(
                        ri as int,
                        ReservationV {
                            seat_reserved: (old(self)@.reservations[ri as int].seat_reserved
                                + num_seat) as u32,
                            ..old(self)@.reservations[ri as int]
                        },
                    ));
                    lemma_wf_after_update(old(self)@, self@, fi as int, ri as int);
                }
                Ok(ReservationStatus::Updated)
            }
            None => {
                proof {
                    lemma_reservation_idx(self@.reservations, flight_id, client_ip@);
                }
                let rid: u32 = self.next_reservation_id;
                self.next_reservation_id = if rid == u32::MAX {
                    0
                } else {
                    rid + 1
                };
                self.update_flight_seats(fi, num_seat);
                let ghost rv0 = old(self)@.reservations;
                self.reservations.push(
                    Reservation {
                        id: rid,
                        flight_id,
                        client_ip,
                        seat_reserved: num_seat,
                        luggage_amount: 0,
                    },
                );
                proof {
                    assert(self@.reservations =~= rv0.push(
                        self.reservations@.last()@,
                    ));
                    lemma_wf_after_create(old(self)@, self@, fi as int);
                }
                Ok(ReservationStatus::Created)
            }
        }
    }

    /// Takes `num_seat` seats out of the flight row at `fi`.
    fn update_flight_seats(&mut self, fi: usize, num_seat: u32)
        requires
            fi < old(self).flights@.len(),
            old(self)@.flights[fi as int].seat_available >= num_seat,
        ensures
            final(self)@.flights == old(self)@.flights.update(
                fi as int,
                FlightV {
                    seat_available: (old(self)@.flights[fi as int].seat_available - num_seat)
                        as u32,
                    ..old(self)@.flights[fi as int]
                },
            ),
            final(self)@.reservations == old(self)@.reservations,
            final(self).reservations == old(self).reservations,
            final(self).next_reservation_id == old(self).next_reservation_id,
    {
        proof {
            assert(self@.flights[fi as int] == self.flights@[fi as int]@);
        }
        let mut f: Flight = self.flights.remove(fi);
        f.seat_available = f.seat_available - num_seat;
        self.flights.insert(fi, f);
        proof {
            assert(self@.flights =~= old(self)@.flights.update(
                fi as int,
                FlightV {
                    seat_available: (old(self)@.flights[fi as int].seat_available - num_seat)
                        as u32,
                    ..old(self)@.flights[fi as int]
                },
            ));
            assert(self@.reservations =~= old(self)@.reservations);
        }
    }
}

impl DatabaseService {
    /// Gives a client's reservation on a flight back: the reserved
    /// seats return to the flight (when the flight still exists) and
    /// the reservation row goes away. Repeating the call finds no
    /// reservation and changes nothing.
    pub fn cancel_reservation(&mut self, flight_id: u32, client_ip: String) -> (r: Result<
        CancellationStatus,
        StoreError,
    >)
        requires
            old(self).wf(),
        ensures
            final(self).wf(),
            r == cancel_status(old(self)@, flight_id, client_ip@),
            final(self)@ == cancel_next(old(self)@, flight_id, client_ip@),
    {
        let ri: usize = match self.reservation_pos(flight_id, &client_ip) {
            None => {
                return Ok(CancellationStatus::ReservationNotExisted);
            }
            Some(i) => i,
        };
        proof {
            assert(self@.reservations[ri as int] == self.reservations@[ri as int]@);
        }
        let num_reserved: u32 = self.reservations[ri].seat_reserved;
        match self.flight_pos(flight_id) {
            Some(fi) => {
                proof {
                    assert(self@.flights[fi as int] == self.flights@[fi as int]@);
                }
                if self.flights[fi].seat_available > u32::MAX - num_reserved {
                    return Err(StoreError);
                }
                let mut f: Flight = self.flights.remove(fi);
                f.seat_available = f.seat_available + num_reserved;
                self.flights.insert(fi, f);
                self.reservations.remove(ri);
                proof {
                    assert(self@.flights =~= old(self)@.flights.update(
                        fi as int,
                        FlightV {
                            seat_available: (old(self)@.flights[fi as int].seat_available
                                + num_reserved) as u32,
                            ..old(self)@.flights[fi as int]
                        },
                    ));
                    assert(self@.reservations =~= old(self)@.reservations.remove(ri as int));
                    lemma_wf_after_remove(old(self)@, self@, ri as int);
                }
                Ok(CancellationStatus::Success)
            }
            None => {
                self.reservations.remove(ri);
                proof {
                    assert(self@.flights =~= old(self)@.flights);
                    assert(self@.reservations =~= old(self)@.reservations.remove(ri as int));
                    lemma_wf_after_remove(old(self)@, self@, ri as int);
                }
                Ok(CancellationStatus::Success)
            }
        }
    }

    /// Adds luggage weight to a client's reservation; without a
    /// reservation nothing is bought.
    pub fn buy_luggage(&mut self, flight_id: u32, client_ip: String, amount_in_kg: u32) -> (r:
        Result<BuyLuggageStatus, StoreError>)
        requires
            old(self).wf(),
        ensures
            final(self).wf(),
            r == luggage_status(old(self)@, flight_id, client_ip@, amount_in_kg),
            final(self)@ == luggage_next(old(self)@, flight_id, client_ip@, amount_in_kg),
    {
        let ri: usize = match self.reservation_pos(flight_id, &client_ip) {
            None => {
                return Ok(BuyLuggageStatus::ReservationNotExisted);
            }
            Some(i) => i,
        };
        proof {
            assert(self@.reservations[ri as int] == self.reservations@[ri as int]@);
        }
        let old_luggage: u32 = self.reservations[ri].luggage_amount;
        if old_luggage > u32::MAX - amount_in_kg {
            return Err(StoreError);
        }
        let mut resv: Reservation = self.reservations.remove(ri);
        resv.luggage_amount = old_luggage + amount_in_kg;
        self.reservations.insert(ri, resv);
        proof {
            assert(self@.flights =~= old(self)@.flights);
            assert(self@.reservations =~= old(self)@.reservations.update(
                ri as int,
                ReservationV {
                    luggage_amount: (old(self)@.reservations[ri as int].luggage_amount
                        + amount_in_kg) as u32,
                    ..old(self)@.reservations[ri as int]
                },
            ));
        }
        Ok(BuyLuggageStatus::Success)
    }
}

/// Seeds the ten fixed flights of the test data set, ids one to ten.
pub fn seed_test_db_with_hardcode_data(db: &mut DatabaseService)
    requires
        old(db).wf(),
        old(db)@.flights.len() == 0,
    ensures
        final(db).wf(),
        final(db)@.reservations == old(db)@.reservations,
        final(db)@.flights.len() == 10,
        forall|i: int| 0 <= i < 10 ==> #[trigger] final(db)@.flights[i].id == i + 1,
        final(db)@.flights[0] =~= seeded_flight(1, "LAS"@, "HAN"@, 1680105600, 500, 15099),
        final(db)@.flights[1] =~= seeded_flight(2, "HAN"@, "SIN"@, 1680109200, 300, 59099),
        final(db)@.flights[2] =~= seeded_flight(3, "SYD"@, "LAX"@, 1680112800, 500, 15099),
        final(db)@.flights[3] =~= seeded_flight(4, "PAR"@, "HAN"@, 1680116400, 500, 12099),
        final(db)@.flights[4] =~= seeded_flight(5, "SIN"@, "LAX"@, 1680120000, 500, 15099),
        final(db)@.flights[5] =~= seeded_flight(6, "PAR"@, "SIN"@, 1680123600, 200, 12099),
        final(db)@.flights[6] =~= seeded_flight(7, "LAS"@, "sIN"@, 1680127200, 200, 59099),
        final(db)@.flights[7] =~= seeded_flight(8, "LAS"@, "HAN"@, 1680130800, 300, 12099),
        final(db)@.flights[8] =~= seeded_flight(9, "SIN"@, "LAS"@, 1680134400, 500, 15099),
        final(db)@.flights[9] =~= seeded_flight(10, "HAN"@, "LAS"@, 1680138000, 300, 15099),
{
    seed_one(db, 1, "LAS", "HAN", 1680105600, 500, 15099);
    seed_one(db, 2, "HAN", "SIN", 1680109200, 300, 59099);
    seed_one(db, 3, "SYD", "LAX", 1680112800, 500, 15099);
    seed_one(db, 4, "PAR", "HAN", 1680116400, 500, 12099);
    seed_one(db, 5, "SIN", "LAX", 1680120000, 500, 15099);
    seed_one(db, 6, "PAR", "SIN", 1680123600, 200, 12099);
    seed_one(db, 7, "LAS", "sIN", 1680127200, 200, 59099);
    seed_one(db, 8, "LAS", "HAN", 1680130800, 300, 12099);
    seed_one(db, 9, "SIN", "LAS", 1680134400, 500, 15099);
    seed_one(db, 10, "HAN", "LAS", 1680138000, 300, 15099);
}

/// The view of one seeded flight row.
pub open spec fn seeded_flight(
    id: u32,
    source: Seq<char>,
    destination: Seq<char>,
    departure_time: i32,
    seat_available: u32,
    airfare_cents: u32,
) -> FlightV {
    FlightV { id, source, destination, departure_time, seat_available, airfare_cents }
}

/// Appends one seeded flight; ids are handed out in increasing order.
fn seed_one(
    db: &mut DatabaseService,
    id: u32,
    source: &str,
    destination: &str,
    departure_time: i32,
    seat_available: u32,
    airfare_cents: u32,
)
    requires
        old(db).wf(),
        forall|j: int| 0 <= j < old(db)@.flights.len() ==> old(db)@.flights[j].id < id,
    ensures
        final(db).wf(),
        final(db)@.reservations == old(db)@.reservations,
        final(db)@.flights == old(db)@.flights.push(
            seeded_flight(id, source@, destination@, departure_time, seat_available, airfare_cents),
        ),
{
    proof {
        lemma_flight_idx(db@.flights, id);
        if flight_idx(db@.flights, id) >= 0 {
            assert(db@.flights[flight_idx(db@.flights, id)].id == id);
        }
    }
    db.add_flight(
        Flight::new(id, source, destination, departure_time, seat_available, airfare_cents),
    );
}

/// Law: cancellation is idempotent. On a store holding at most one
/// reservation per flight and client, cancelling the same pair twice
/// leaves exactly the state one cancellation leaves: the second call
/// finds no reservation and changes nothing.
pub proof fn lemma_cancel_idempotent(db: DbView, flight_id: u32, client: Seq<char>)
    requires
        forall|i: int, j: int|
            0 <= i < j < db.reservations.len() ==> !(db.reservations[i].flight_id
                == db.reservations[j].flight_id && db.reservations[i].client_ip
                == db.reservations[j].client_ip),
    ensures
        cancel_next(cancel_next(db, flight_id, client), flight_id, client) == cancel_next(
            db,
            flight_id,
            client,
        ),
{
    let once = cancel_next(db, flight_id, client);
    lemma_reservation_idx(db.reservations, flight_id, client);
    let ri = reservation_idx(db.reservations, flight_id, client);
    if ri >= 0 && cancel_status(db, flight_id, client) == Ok::<CancellationStatus, StoreError>(
        CancellationStatus::Success,
    ) {
        assert forall|j: int| 0 <= j < once.reservations.len() implies !(
        once.reservations[j].flight_id == flight_id && once.reservations[j].client_ip
            == client) by {
            let pj: int = if j < ri {
                j
            } else {
                j + 1
            };
            assert(once.reservations[j] == db.reservations[pj]);
        }
        lemma_reservation_idx(once.reservations, flight_id, client);
        assert(reservation_idx(once.reservations, flight_id, client) == -1) by {
            if reservation_idx(once.reservations, flight_id, client) >= 0 {
                assert(once.reservations[reservation_idx(once.reservations, flight_id, client)].flight_id
                    == flight_id);
            }
        }
    }
}

/// Uniqueness survives removing a reservation row.
proof fn lemma_wf_after_remove(pre: DbView, post: DbView, ri: int)
    requires
        0 <= ri < pre.reservations.len(),
        (forall|i: int, j: int|
            0 <= i < j < pre.reservations.len() ==> !(pre.reservations[i].flight_id
                == pre.reservations[j].flight_id && pre.reservations[i].client_ip
                == pre.reservations[j].client_ip)),
        post.reservations == pre.reservations.remove(ri),
    ensures
        (forall|i: int, j: int|
            0 <= i < j < post.reservations.len() ==> !(post.reservations[i].flight_id
                == post.reservations[j].flight_id && post.reservations[i].client_ip
                == post.reservations[j].client_ip)),
{
    assert forall|i: int, j: int| 0 <= i < j < post.reservations.len() implies !(
    post.reservations[i].flight_id == post.reservations[j].flight_id
        && post.reservations[i].client_ip == post.reservations[j].client_ip) by {
        let pi: int = if i < ri {
            i
        } else {
            i + 1
        };
        let pj: int = if j < ri {
            j
        } else {
            j + 1
        };
        assert(post.reservations[i] == pre.reservations[pi]);
        assert(post.reservations[j] == pre.reservations[pj]);
    }
}

/// Uniqueness survives an in-place update of one flight row and one
/// reservation row that keep their keys.
proof fn lemma_wf_after_update(pre: DbView, post: DbView, fi: int, ri: int)
    requires
        0 <= fi < pre.flights.len(),
        0 <= ri < pre.reservations.len(),
        (forall|i: int, j: int|
            0 <= i < j < pre.flights.len() ==> pre.flights[i].id != pre.flights[j].id),
        (forall|i: int, j: int|
            0 <= i < j < pre.reservations.len() ==> !(pre.reservations[i].flight_id
                == pre.reservations[j].flight_id && pre.reservations[i].client_ip
                == pre.reservations[j].client_ip)),
        post.flights.len() == pre.flights.len(),
        post.reservations.len() == pre.reservations.len(),
        forall|i: int|
            0 <= i < pre.flights.len() ==> #[trigger] post.flights[i].id == pre.flights[i].id,
        forall|i: int|
            0 <= i < pre.reservations.len() ==> #[trigger] post.reservations[i].flight_id
                == pre.reservations[i].flight_id && post.reservations[i].client_ip
                == pre.reservations[i].client_ip,
    ensures
        (forall|i: int, j: int|
            0 <= i < j < post.flights.len() ==> post.flights[i].id != post.flights[j].id),
        (forall|i: int, j: int|
            0 <= i < j < post.reservations.len() ==> !(post.reservations[i].flight_id
                == post.reservations[j].flight_id && post.reservations[i].client_ip
                == post.reservations[j].client_ip)),
{
}

/// Uniqueness survives adding a reservation under a key no row holds.
proof fn lemma_wf_after_create(pre: DbView, post: DbView, fi: int)
    requires
        0 <= fi < pre.flights.len(),
        (forall|i: int, j: int|
            0 <= i < j < pre.flights.len() ==> pre.flights[i].id != pre.flights[j].id),
        (forall|i: int, j: int|
            0 <= i < j < pre.reservations.len() ==> !(pre.reservations[i].flight_id
                == pre.reservations[j].flight_id && pre.reservations[i].client_ip
                == pre.reservations[j].client_ip)),
        post.flights.len() == pre.flights.len(),
        post.reservations.len() == pre.reservations.len() + 1,
        forall|i: int|
            0 <= i < pre.flights.len() ==> #[trigger] post.flights[i].id == pre.flights[i].id,
        forall|i: int|
            0 <= i < pre.reservations.len() ==> #[trigger] post.reservations[i]
                == pre.reservations[i],
        forall|i: int|
            0 <= i < pre.reservations.len() ==> !(#[trigger] pre.reservations[i].flight_id
                == post.reservations.last().flight_id && pre.reservations[i].client_ip
                == post.reservations.last().client_ip),
    ensures
        (forall|i: int, j: int|
            0 <= i < j < post.flights.len() ==> post.flights[i].id != post.flights[j].id),
        (forall|i: int, j: int|
            0 <= i < j < post.reservations.len() ==> !(post.reservations[i].flight_id
                == post.reservations[j].flight_id && post.reservations[i].client_ip
                == post.reservations[j].client_ip)),
{
    assert forall|i: int, j: int| 0 <= i < j < post.reservations.len() implies !(
    post.reservations[i].flight_id == post.reservations[j].flight_id
        && post.reservations[i].client_ip == post.reservations[j].client_ip) by {
        if j == post.reservations.len() - 1 {
            assert(post.reservations[i] == pre.reservations[i]);
            assert(post.reservations[j] == post.reservations.last());
        }
    }
}

} // verus!
