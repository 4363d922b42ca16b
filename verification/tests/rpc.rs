use sui_gas_pool::base_types::{ObjectDigest, ObjectID, ObjectRef, SuiAddress};
use sui_gas_pool::rpc_server::{
    check_input_object_count, is_authorized, response_shape, screen_reserve_gas, HttpStatus, ReserveGasRejection,
    ResponseOptions, ResponseShape, MAX_INPUT_OBJECTS,
};
use sui_gas_pool::rpc_types::{
    ReserveGasRequest, ReserveGasRequestError, ReserveGasResponse, ReserveGasStorageResponse, UpdateGasStorageResponse,
    MAX_DURATION_S,
};

#[test]
fn reserve_gas_request_validity() {
    let max = 2_000_000_000;
    let ok = ReserveGasRequest { gas_budget: 10, reserve_duration_secs: 10 };
    assert_eq!(ok.check_validity(max), Ok(()));
    let r = ReserveGasRequest { gas_budget: 0, reserve_duration_secs: 10 };
    assert_eq!(r.check_validity(max), Err(ReserveGasRequestError::ZeroGasBudget));
    let r = ReserveGasRequest { gas_budget: max + 1, reserve_duration_secs: 10 };
    assert_eq!(r.check_validity(max), Err(ReserveGasRequestError::GasBudgetTooLarge { max_sui_per_request: max }));
    let r = ReserveGasRequest { gas_budget: max, reserve_duration_secs: 0 };
    assert_eq!(r.check_validity(max), Err(ReserveGasRequestError::ZeroReserveDuration));
    let r = ReserveGasRequest { gas_budget: 1, reserve_duration_secs: MAX_DURATION_S + 1 };
    assert_eq!(
        r.check_validity(max),
        Err(ReserveGasRequestError::ReserveDurationTooLong { max_duration_secs: 600 })
    );
    let r = ReserveGasRequest { gas_budget: 1, reserve_duration_secs: MAX_DURATION_S };
    assert_eq!(r.check_validity(max), Ok(()));
}

#[test]
fn test_invalid_auth() {
    let secret = "secret".to_string();
    assert!(!is_authorized(&"wrong".to_string(), &secret));
    assert!(is_authorized(&"secret".to_string(), &secret));
    let req = ReserveGasRequest { gas_budget: 10, reserve_duration_secs: 10 };
    let r = screen_reserve_gas(false, &req, 100);
    assert_eq!(r, Err((HttpStatus::Unauthorized, ReserveGasRejection::InvalidAuthorizationToken)));
    assert_eq!(HttpStatus::Unauthorized.code(), 401);
}

#[test]
fn invalid_reservation_is_bad_request() {
    let req = ReserveGasRequest { gas_budget: 0, reserve_duration_secs: 10 };
    let r = screen_reserve_gas(true, &req, 100);
    assert_eq!(r, Err((HttpStatus::BadRequest, ReserveGasRejection::Invalid(ReserveGasRequestError::ZeroGasBudget))));
    assert_eq!(HttpStatus::BadRequest.code(), 400);
    assert_eq!(screen_reserve_gas(true, &ReserveGasRequest { gas_budget: 5, reserve_duration_secs: 5 }, 100), Ok(()));
}

#[test]
fn too_many_input_objects_returns_400() {
    assert_eq!(check_input_object_count(MAX_INPUT_OBJECTS), Ok(()));
    assert_eq!(check_input_object_count(60), Err((HttpStatus::BadRequest, 50)));
}

#[test]
fn response_shape_follows_options() {
    let none = ResponseOptions {
        show_input: false,
        show_raw_input: false,
        show_effects: false,
        show_events: false,
        show_object_changes: false,
        show_balance_changes: false,
        show_raw_effects: false,
    };
    assert_eq!(response_shape(None), ResponseShape::EffectsOnly);
    assert_eq!(response_shape(Some(none)), ResponseShape::EffectsOnly);
    let some = ResponseOptions { show_events: true, show_balance_changes: true, ..none };
    assert_eq!(
        response_shape(Some(some)),
        ResponseShape::BlockResponse { keep_effects: false, keep_balance_changes: true }
    );
}

#[test]
fn responses_carry_result_or_error() {
    let sponsor = SuiAddress { hi: 1, lo: 2 };
    let coins = vec![ObjectRef(ObjectID { hi: 0, lo: 1 }, 3, ObjectDigest { hi: 0, lo: 4 })];
    let ok = ReserveGasResponse::new_ok(sponsor, 7, coins.clone());
    assert!(ok.error.is_none());
    let res = ok.into_result().unwrap();
    assert_eq!(res.reservation_id, 7);
    assert_eq!(res.gas_coins, coins);
    let err = ReserveGasResponse::new_err("no coins".to_string());
    assert_eq!(err.into_result().unwrap_err(), "no coins");
    let unknown = ReserveGasResponse { result: None, error: None };
    assert_eq!(unknown.into_result().unwrap_err(), "Unknown error");
    assert!(UpdateGasStorageResponse::new_ok().error.is_none());
    assert_eq!(UpdateGasStorageResponse::new_err("bad".to_string()).error, Some("bad".to_string()));
    assert!(ReserveGasStorageResponse::new_ok(vec![]).gas_coins.is_some());
    assert_eq!(ReserveGasStorageResponse::new_err("x".to_string()).error, Some("x".to_string()));
}
