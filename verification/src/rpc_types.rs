//! The requests and responses of the gas pool's RPC and storage services.

use vstd::prelude::*;
use crate::base_types::{GasCoin, ObjectID, ObjectRef, ReservationID, SuiAddress};

verus! {

/// The longest reservation: 10 minutes.
pub const MAX_DURATION_S: u64 = 600;

/// A request to reserve gas coins for a budget, for a while.
#[derive(Clone, Copy, Debug, PartialEq, Eq, Structural)]
pub struct ReserveGasRequest {
    pub gas_budget: u64,
    pub reserve_duration_secs: u64,
}

#[derive(Clone, Copy, Debug, PartialEq, Eq, Structural)]
pub enum ReserveGasRequestError {
    /// The gas budget is zero.
    ZeroGasBudget,
    /// The gas budget is more than the most one request may ask for.
    GasBudgetTooLarge { max_sui_per_request: u64 },
    /// The reservation lasts no time.
    ZeroReserveDuration,
    /// The reservation lasts longer than `MAX_DURATION_S`.
    ReserveDurationTooLong { max_duration_secs: u64 },
}

impl ReserveGasRequest {
    /// What a check of the request answers: the first rule it breaks.
    pub open spec fn validity(self, max_sui_per_request: u64) -> Result<(), ReserveGasRequestError> {
        if self.gas_budget == 0 {
            Err(ReserveGasRequestError::ZeroGasBudget)
        } else if self.gas_budget > max_sui_per_request {
            Err(ReserveGasRequestError::GasBudgetTooLarge { max_sui_per_request })
        } else if self.reserve_duration_secs == 0 {
            Err(ReserveGasRequestError::ZeroReserveDuration)
        } else if self.reserve_duration_secs > MAX_DURATION_S {
            Err(ReserveGasRequestError::ReserveDurationTooLong { max_duration_secs: MAX_DURATION_S })
        } else {
            Ok(())
        }
    }

    /// The budget must be positive and at most `max_sui_per_request`, and the
    /// duration positive and at most `MAX_DURATION_S` seconds.
    pub fn check_validity(&self, max_sui_per_request: u64) -> (r: Result<(), ReserveGasRequestError>)
        ensures
            r == self.validity(max_sui_per_request),
            r is Ok <==> 0 < self.gas_budget <= max_sui_per_request && 0 < self.reserve_duration_secs <= MAX_DURATION_S,
    {
        if self.gas_budget == 0 {
            return Err(ReserveGasRequestError::ZeroGasBudget);
        }
        if self.gas_budget > max_sui_per_request {
            return Err(ReserveGasRequestError::GasBudgetTooLarge { max_sui_per_request });
        }
        if self.reserve_duration_secs == 0 {
            return Err(ReserveGasRequestError::ZeroReserveDuration);
        }
        if self.reserve_duration_secs > MAX_DURATION_S {
            return Err(ReserveGasRequestError::ReserveDurationTooLong { max_duration_secs: MAX_DURATION_S });
        }
        Ok(())
    }
}

/// A successful reservation: the sponsor, the reservation and its coins.
#[derive(Debug)]
pub struct ReserveGasResult {
    pub sponsor_address: SuiAddress,
    pub reservation_id: ReservationID,
    pub gas_coins: Vec<ObjectRef>,
}

/// The answer to a reservation request: a result or an error message.
#[derive(Debug)]
pub struct ReserveGasResponse {
    pub result: Option<ReserveGasResult>,
    pub error: Option<String>,
}

impl ReserveGasResponse {
    pub fn new_ok(sponsor_address: SuiAddress, reservation_id: ReservationID, gas_coins: Vec<ObjectRef>) -> (r: Self)
        ensures
            r.result matches Some(res) && res.sponsor_address == sponsor_address
                && res.reservation_id == reservation_id && res.gas_coins@ == gas_coins@,
            r.error is None,
    {
        ReserveGasResponse {
            result: Some(ReserveGasResult { sponsor_address, reservation_id, gas_coins }),
            error: None,
        }
    }

    pub fn new_err(error: String) -> (r: Self)
        ensures
            r.result is None,
            r.error matches Some(e) && e@ == error@,
    {
        ReserveGasResponse { result: None, error: Some(error) }
    }

    /// What a client reads from the response: the result, or else the error
    /// message, or "Unknown error" when there is neither.
    pub fn into_result(self) -> (r: Result<ReserveGasResult, String>)
        ensures
            self.result matches Some(res) ==> (r matches Ok(x) && x.sponsor_address == res.sponsor_address
                && x.reservation_id == res.reservation_id && x.gas_coins@ == res.gas_coins@),
            self.result is None ==> (r matches Err(e) && e@ == match self.error {
                Some(m) => m@,
                None => "Unknown error"@,
            }),
    {
        match self.result {
            Some(res) => Ok(res),
            None => match self.error {
                Some(m) => Err(m),
                None => {
                    proof {
                        broadcast use vstd::string::to_string_from_display_ensures_for_str;
                    }
                    Err("Unknown error".to_string())
                },
            },
        }
    }
}

/// A request to the storage service to reserve coins of a sponsor.
#[derive(Clone, Copy, Debug, PartialEq, Eq, Structural)]
pub struct ReserveGasStorageRequest {
    pub gas_budget: u64,
    pub request_sponsor: SuiAddress,
}

/// A request to the storage service to put back coins of a sponsor, and
/// forget deleted ones.
#[derive(Debug)]
pub struct UpdateGasStorageRequest {
    pub sponsor_address: SuiAddress,
    pub released_gas_coins: Vec<GasCoin>,
    pub deleted_gas_coins: Vec<ObjectID>,
}

/// The storage service's answer to a reservation: the coins or an error message.
#[derive(Debug)]
pub struct ReserveGasStorageResponse {
    pub gas_coins: Option<Vec<GasCoin>>,
    pub error: Option<String>,
}

impl ReserveGasStorageResponse {
    pub fn new_ok(gas_coins: Vec<GasCoin>) -> (r: Self)
        ensures
            r.gas_coins matches Some(c) && c@ == gas_coins@,
            r.error is None,
    {
        ReserveGasStorageResponse { gas_coins: Some(gas_coins), error: None }
    }

    pub fn new_err(error: String) -> (r: Self)
        ensures
            r.gas_coins is None,
            r.error matches Some(e) && e@ == error@,
    {
        ReserveGasStorageResponse { gas_coins: None, error: Some(error) }
    }
}

/// The storage service's answer to an update: nothing, or an error message.
#[derive(Debug)]
pub struct UpdateGasStorageResponse {
    pub error: Option<String>,
}

impl UpdateGasStorageResponse {
    pub fn new_ok() -> (r: Self)
        ensures
            r.error is None,
    {
        UpdateGasStorageResponse { error: None }
    }

    pub fn new_err(error: String) -> (r: Self)
        ensures
            r.error matches Some(e) && e@ == error@,
    {
        UpdateGasStorageResponse { error: Some(error) }
    }
}

} // verus!
