//! What the RPC server decides about a request before and after handing it
//! to the gas pool: whether it is authorized and valid, and what the response
//! shows.

use vstd::prelude::*;
use crate::rpc_types::{ReserveGasRequest, ReserveGasRequestError};

verus! {

/// The most immutable or owned input objects a sponsored transaction may have.
pub const MAX_INPUT_OBJECTS: usize = 50;

/// The HTTP status of a response.
#[derive(Clone, Copy, Debug, PartialEq, Eq, Structural)]
pub enum HttpStatus {
    Success,
    BadRequest,
    Unauthorized,
    InternalServerError,
}

impl HttpStatus {
    /// The status code.
    pub fn code(&self) -> (r: u16)
        ensures
            r == match self {
                HttpStatus::Success => 200u16,
                HttpStatus::BadRequest => 400u16,
                HttpStatus::Unauthorized => 401u16,
                HttpStatus::InternalServerError => 500u16,
            },
    {
        match self {
            HttpStatus::Success => 200,
            HttpStatus::BadRequest => 400,
            HttpStatus::Unauthorized => 401,
            HttpStatus::InternalServerError => 500,
        }
    }
}

/// Why a reservation request is turned away before the pool sees it.
#[derive(Clone, Copy, Debug, PartialEq, Eq, Structural)]
pub enum ReserveGasRejection {
    /// The bearer token is not the server's secret.
    InvalidAuthorizationToken,
    /// The request breaks a rule.
    Invalid(ReserveGasRequestError),
}

/// Whether the bearer token is the server's secret.
pub fn is_authorized(token: &String, secret: &String) -> (r: bool)
    ensures
        r == (token@ == secret@),
{
    *token == *secret
}

/// Screens a reservation request: an unauthorized one is answered 401, an
/// invalid one 400, with the first rule it breaks.
pub fn screen_reserve_gas(authorized: bool, request: &ReserveGasRequest, max_sui_per_request: u64)
    -> (r: Result<(), (HttpStatus, ReserveGasRejection)>)
    ensures
        !authorized ==> r == Err::<(), (HttpStatus, ReserveGasRejection)>(
            (HttpStatus::Unauthorized, ReserveGasRejection::InvalidAuthorizationToken)),
        authorized ==> match request.validity(max_sui_per_request) {
            Ok(()) => r is Ok,
            Err(e) => r == Err::<(), (HttpStatus, ReserveGasRejection)>((HttpStatus::BadRequest, ReserveGasRejection::Invalid(e))),
        },
{
    if !authorized {
        return Err((HttpStatus::Unauthorized, ReserveGasRejection::InvalidAuthorizationToken));
    }
    match request.check_validity(max_sui_per_request) {
        Ok(()) => Ok(()),
        Err(e) => Err((HttpStatus::BadRequest, ReserveGasRejection::Invalid(e))),
    }
}

/// A transaction with more immutable or owned input objects than
/// `MAX_INPUT_OBJECTS` is refused (400), naming the limit.
pub fn check_input_object_count(count: usize) -> (r: Result<(), (HttpStatus, usize)>)
    ensures
        count <= MAX_INPUT_OBJECTS ==> r is Ok,
        count > MAX_INPUT_OBJECTS ==> r == Err::<(), (HttpStatus, usize)>((HttpStatus::BadRequest, MAX_INPUT_OBJECTS)),
{
    if count > MAX_INPUT_OBJECTS {
        Err((HttpStatus::BadRequest, MAX_INPUT_OBJECTS))
    } else {
        Ok(())
    }
}

/// What a client asks to see of an executed transaction.
#[derive(Clone, Copy, Debug, PartialEq, Eq, Structural)]
pub struct ResponseOptions {
    pub show_input: bool,
    pub show_raw_input: bool,
    pub show_effects: bool,
    pub show_events: bool,
    pub show_object_changes: bool,
    pub show_balance_changes: bool,
    pub show_raw_effects: bool,
}

impl ResponseOptions {
    /// The default options show nothing.
    pub open spec fn spec_is_default(self) -> bool {
        !self.show_input && !self.show_raw_input && !self.show_effects && !self.show_events
            && !self.show_object_changes && !self.show_balance_changes && !self.show_raw_effects
    }

    pub fn is_default(&self) -> (r: bool)
        ensures
            r == self.spec_is_default(),
    {
        !self.show_input && !self.show_raw_input && !self.show_effects && !self.show_events
            && !self.show_object_changes && !self.show_balance_changes && !self.show_raw_effects
    }
}

/// What the answer to an executed transaction holds.
#[derive(Clone, Copy, Debug, PartialEq, Eq, Structural)]
pub enum ResponseShape {
    /// The effects alone.
    EffectsOnly,
    /// The whole transaction response, with its effects and balance changes
    /// kept only where asked for.
    BlockResponse { keep_effects: bool, keep_balance_changes: bool },
}

/// The shape of the answer for the options asked for.
pub open spec fn spec_response_shape(options: Option<ResponseOptions>) -> ResponseShape {
    match options {
        Some(o) => if o.spec_is_default() {
            ResponseShape::EffectsOnly
        } else {
            ResponseShape::BlockResponse { keep_effects: o.show_effects, keep_balance_changes: o.show_balance_changes }
        },
        None => ResponseShape::EffectsOnly,
    }
}

/// Asking to see anything gives the whole transaction response: options with
/// any `show_*` flag set give the transaction block response, keeping the
/// effects and balance changes as asked; only options with every flag unset,
/// or no options, give the effects alone.
pub proof fn law_response_shape(o: ResponseOptions)
    ensures
        spec_response_shape(None) == ResponseShape::EffectsOnly,
        (o.show_input || o.show_raw_input || o.show_effects || o.show_events || o.show_object_changes
            || o.show_balance_changes || o.show_raw_effects) ==> spec_response_shape(Some(o))
            == (ResponseShape::BlockResponse { keep_effects: o.show_effects, keep_balance_changes: o.show_balance_changes }),
        !(o.show_input || o.show_raw_input || o.show_effects || o.show_events || o.show_object_changes
            || o.show_balance_changes || o.show_raw_effects) ==> spec_response_shape(Some(o)) == ResponseShape::EffectsOnly,
{
}

/// With no options, or the default ones, the answer holds the effects alone;
/// otherwise it holds the transaction response, with the effects and the
/// balance changes only where the options ask for them.
pub fn response_shape(options: Option<ResponseOptions>) -> (r: ResponseShape)
    ensures
        r == spec_response_shape(options),
        r == match options {
            Some(o) => if o.spec_is_default() {
                ResponseShape::EffectsOnly
            } else {
                ResponseShape::BlockResponse { keep_effects: o.show_effects, keep_balance_changes: o.show_balance_changes }
            },
            None => ResponseShape::EffectsOnly,
        },
{
    match options {
        Some(o) => {
            if o.is_default() {
                ResponseShape::EffectsOnly
            } else {
                ResponseShape::BlockResponse { keep_effects: o.show_effects, keep_balance_changes: o.show_balance_changes }
            }
        },
        None => ResponseShape::EffectsOnly,
    }
}

} // verus!
