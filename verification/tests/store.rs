//! The reservation store, exercised as the service primitives see it:
//! lookups, bookings, cancellations and luggage purchases against the
//! ten seeded flights.

use flight_rpc::store::{
    seed_test_db_with_hardcode_data, BuyLuggageStatus, CancellationStatus, DatabaseService,
    Flight, ReservationStatus,
};

fn seeded() -> DatabaseService {
    let mut db = DatabaseService::new();
    seed_test_db_with_hardcode_data(&mut db);
    db
}

#[test]
fn get_flight_by_id_should_return_flight_id_1() {
    let service = seeded();
    let flight_with_id_1 = service.get_flight_by_id(1).unwrap();
    assert_eq!(
        flight_with_id_1,
        Flight {
            id: 1,
            source: "LAS".to_string(),
            destination: "HAN".to_string(),
            departure_time: 1680105600,
            seat_available: 500,
            airfare_cents: 15099,
        }
    );
}

#[test]
fn get_flight_by_id_expect_error_id_not_exists() {
    let service = seeded();
    let flight = service.get_flight_by_id(11);
    assert!(flight.is_none(), "Flight should not be found");
}

#[test]
fn get_flight_by_source_and_destination() {
    let service = seeded();
    let flight_ids = service
        .get_flight_ids("LAS".to_string(), "HAN".to_string())
        .unwrap();
    assert_eq!(flight_ids, [1, 8]);
}

#[test]
fn make_reservation_should_success_twice() {
    let mut service = seeded();

    const CLIENT_IP: &str = "192.168.0.1";
    const FLIGHT_ID: u32 = 1;
    const NUM_RESERVED: u32 = 5;

    let capacity_prior_to_reservation =
        service.get_flight_by_id(FLIGHT_ID).unwrap().seat_available;

    // First time make reservation
    let result = service
        .make_reservation(FLIGHT_ID, CLIENT_IP.to_string(), NUM_RESERVED)
        .unwrap();
    assert_eq!(result, ReservationStatus::Created);
    assert_eq!(
        service.get_flight_by_id(FLIGHT_ID).unwrap().seat_available,
        capacity_prior_to_reservation - NUM_RESERVED
    );
    assert_eq!(
        service
            .get_reservation_by_client(FLIGHT_ID, CLIENT_IP.to_string())
            .unwrap()
            .unwrap()
            .seat_reserved,
        NUM_RESERVED
    );

    // Second time make reservation
    let result = service
        .make_reservation(FLIGHT_ID, CLIENT_IP.to_string(), NUM_RESERVED)
        .unwrap();
    assert_eq!(result, ReservationStatus::Updated);
    assert_eq!(
        service.get_flight_by_id(FLIGHT_ID).unwrap().seat_available,
        capacity_prior_to_reservation - 2 * NUM_RESERVED
    );
    assert_eq!(
        service
            .get_reservation_by_client(FLIGHT_ID, CLIENT_IP.to_string())
            .unwrap()
            .unwrap()
            .seat_reserved,
        2 * NUM_RESERVED
    );
}

#[test]
fn make_reservation_should_be_invalid() {
    let mut service = seeded();

    const CLIENT_IP: &str = "192.168.0.1";
    const FLIGHT_ID: u32 = 1;

    let capacity_prior_to_reservation =
        service.get_flight_by_id(FLIGHT_ID).unwrap().seat_available;

    let result = service
        .make_reservation(FLIGHT_ID, CLIENT_IP.to_string(), 0)
        .unwrap();
    assert_eq!(result, ReservationStatus::ZeroSeatReserved);

    let result = service
        .make_reservation(11, CLIENT_IP.to_string(), 5)
        .unwrap();
    assert_eq!(result, ReservationStatus::InvalidFlightID);

    let result = service
        .make_reservation(
            FLIGHT_ID,
            CLIENT_IP.to_string(),
            capacity_prior_to_reservation + 100,
        )
        .unwrap();
    assert_eq!(result, ReservationStatus::InsufficientCapacity);

    assert_eq!(
        service.get_flight_by_id(FLIGHT_ID).unwrap().seat_available,
        capacity_prior_to_reservation,
        "Flight state should not change"
    );
}

#[test]
fn cancel_reservation_should_success_then_return_record_not_existed() {
    let mut service = seeded();

    const CLIENT_IP: &str = "192.168.0.1";
    const FLIGHT_ID: u32 = 1;
    const NUM_RESERVED: u32 = 5;

    let capacity_prior_to_reservation =
        service.get_flight_by_id(FLIGHT_ID).unwrap().seat_available;

    service
        .make_reservation(FLIGHT_ID, CLIENT_IP.to_string(), NUM_RESERVED)
        .unwrap();
    service
        .make_reservation(FLIGHT_ID, CLIENT_IP.to_string(), NUM_RESERVED)
        .unwrap();
    assert_eq!(
        service.get_flight_by_id(FLIGHT_ID).unwrap().seat_available,
        capacity_prior_to_reservation - 2 * NUM_RESERVED
    );

    // First time cancel
    let cancel_reservation_result = service
        .cancel_reservation(FLIGHT_ID, CLIENT_IP.to_string())
        .unwrap();
    assert_eq!(cancel_reservation_result, CancellationStatus::Success);
    assert_eq!(
        service.get_flight_by_id(FLIGHT_ID).unwrap().seat_available,
        capacity_prior_to_reservation
    );

    // Second time cancel
    assert_eq!(
        service
            .cancel_reservation(FLIGHT_ID, CLIENT_IP.to_string())
            .unwrap(),
        CancellationStatus::ReservationNotExisted
    );
}

#[test]
fn buy_luggage() {
    let mut service = seeded();

    const CLIENT_IP: &str = "192.168.0.1";
    const FLIGHT_ID: u32 = 1;
    const AMOUNT_LUGGAGE_IN_KG: u32 = 5;

    assert_eq!(
        service
            .buy_luggage(FLIGHT_ID, CLIENT_IP.to_string(), 10)
            .unwrap(),
        BuyLuggageStatus::ReservationNotExisted
    );

    service
        .make_reservation(FLIGHT_ID, CLIENT_IP.to_string(), 1)
        .unwrap();

    let status = service
        .buy_luggage(FLIGHT_ID, CLIENT_IP.to_string(), AMOUNT_LUGGAGE_IN_KG)
        .unwrap();
    assert_eq!(status, BuyLuggageStatus::Success);
    assert_eq!(
        service
            .get_reservation_by_client(FLIGHT_ID, CLIENT_IP.to_string())
            .unwrap()
            .unwrap()
            .luggage_amount,
        AMOUNT_LUGGAGE_IN_KG
    );

    let status = service
        .buy_luggage(FLIGHT_ID, CLIENT_IP.to_string(), AMOUNT_LUGGAGE_IN_KG)
        .unwrap();
    assert_eq!(status, BuyLuggageStatus::Success);
    assert_eq!(
        service
            .get_reservation_by_client(FLIGHT_ID, CLIENT_IP.to_string())
            .unwrap()
            .unwrap()
            .luggage_amount,
        2 * AMOUNT_LUGGAGE_IN_KG
    );
}

#[test]
fn statuses_render_their_messages() {
    assert_eq!(ReservationStatus::Created.message(), "Reservation created");
    assert_eq!(ReservationStatus::Updated.message(), "Reservation updated");
    assert_eq!(ReservationStatus::InvalidFlightID.message(), "Flight not found");
    assert_eq!(ReservationStatus::InsufficientCapacity.message(), "Not enough seat");
    assert_eq!(
        ReservationStatus::ZeroSeatReserved.message(),
        "Seat reserved should be greater"
    );
    assert_eq!(
        CancellationStatus::Success.message(),
        "Reservation successfully cancelled"
    );
    assert_eq!(
        CancellationStatus::ReservationNotExisted.message(),
        "Reservation not found"
    );
    assert_eq!(BuyLuggageStatus::Success.message(), "Luggage successfully bought");
}
