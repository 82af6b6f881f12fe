//! What a request is answered with: the upstream address, the caller's
//! parameters, the upstream's own error report, and the failure kinds.

use vstd::prelude::*;
use crate::model::{RawPrediction, StopGroups, StopView, predictions_view, stops_view};
use crate::shape::{group_predictions, shaped};

verus! {

/// Base address of the prediction service.
pub const BASE_URL: &'static str = "http://truetime.portauthority.org/bustime/api/v3";

/// The stops asked for when the caller names none.
pub const DEFAULT_STOPS: &'static str = "4407,7117";

/// The stops a caller may ask for one at a time.
pub const STOP_EAST: &'static str = "4407";

pub const STOP_WEST: &'static str = "7117";

/// Time resolution asked of the service: seconds.
pub const TIME_RES: &'static str = "s";

/// The service's feed name.
pub const FEED_NAME: &'static str = "Port Authority Bus";

/// The service's reply once decoded: its predictions and the messages of its
/// own error report, each present or not.
pub struct UpstreamBody {
    pub predictions: Option<Vec<RawPrediction>>,
    pub errors: Option<Vec<String>>,
}

/// Why a request failed.
pub enum RelayError {
    /// The service could not be reached, or its reply could not be read; the
    /// cause as text.
    Upstream(String),
    /// The reply was not the JSON document expected; the cause as text.
    Decode(String),
    /// The caller asked for a stop that is not served.
    UnknownStop(String),
    /// The caller asked for a pass-through fetch and gave no address.
    MissingUrl,
}

pub open spec fn status_of(e: RelayError) -> u16 {
    match e {
        RelayError::Upstream(_) => 502,
        RelayError::Decode(_) => 500,
        RelayError::UnknownStop(_) => 400,
        RelayError::MissingUrl => 400,
    }
}

pub open spec fn message_of(e: RelayError) -> Seq<char> {
    match e {
        RelayError::Upstream(cause) => "API Connect Error: "@ + cause@,
        RelayError::Decode(cause) => "API Parse Error: "@ + cause@,
        RelayError::UnknownStop(stop) => "unsupported stop: "@ + stop@,
        RelayError::MissingUrl => "missing url parameter"@,
    }
}

impl RelayError {
    /// The HTTP status that answers this failure.
    pub fn status(&self) -> (r: u16)
        ensures
            r == status_of(*self),
    {
        match self {
            RelayError::Upstream(_) => 502,
            RelayError::Decode(_) => 500,
            RelayError::UnknownStop(_) => 400,
            RelayError::MissingUrl => 400,
        }
    }

    /// The human-readable text sent with the status.
    pub fn message(&self) -> (r: String)
        ensures
            r@ == message_of(*self),
    {
        match self {
            RelayError::Upstream(cause) => {
                let prefix = "API Connect Error: ";
                proof {
                    reveal_strlit("API Connect Error: ");
                }
                String::from_str(prefix).concat(cause.as_str())
            },
            RelayError::Decode(cause) => {
                let prefix = "API Parse Error: ";
                proof {
                    reveal_strlit("API Parse Error: ");
                }
                String::from_str(prefix).concat(cause.as_str())
            },
            RelayError::UnknownStop(stop) => {
                let prefix = "unsupported stop: ";
                proof {
                    reveal_strlit("unsupported stop: ");
                }
                String::from_str(prefix).concat(stop.as_str())
            },
            RelayError::MissingUrl => {
                let text = "missing url parameter";
                proof {
                    reveal_strlit("missing url parameter");
                }
                String::from_str(text)
            },
        }
    }
}

/// What the caller is shown for a decoded reply: nothing when the service
/// reported an error, else its predictions grouped.
pub open spec fn reply_of(errors_present: bool, predictions: Option<Seq<RawPrediction>>) -> Seq<
    StopView,
> {
    if errors_present {
        Seq::empty()
    } else {
        match predictions {
            Some(ps) => shaped(predictions_view(ps)),
            None => Seq::empty(),
        }
    }
}

/// Shapes a decoded reply. A reply that carries an error report, even beside
/// predictions, gives no stops: the request still succeeds.
pub fn shape_body(body: &UpstreamBody) -> (r: Vec<StopGroups>)
    ensures
        stops_view(r@) == reply_of(
            body.errors is Some,
            match body.predictions {
                Some(ps) => Some(ps@),
                None => None,
            },
        ),
        body.errors is Some ==> r@.len() == 0,
{
    if body.errors.is_some() {
        let none: Vec<StopGroups> = Vec::new();
        assert(stops_view(none@) =~= Seq::<StopView>::empty());
        return none;
    }
    match &body.predictions {
        Some(ps) => group_predictions(ps),
        None => {
            let none: Vec<StopGroups> = Vec::new();
            assert(stops_view(none@) =~= Seq::<StopView>::empty());
            none
        },
    }
}

/// The stops to ask the service for: all served stops when the caller names
/// none, the one named when it is served, else `UnknownStop`.
pub fn select_stops(stop: Option<String>) -> (r: Result<String, RelayError>)
    ensures
        match stop {
            None => r matches Ok(s) && s@ == DEFAULT_STOPS@,
            Some(s) => if s@ == STOP_EAST@ || s@ == STOP_WEST@ {
                r matches Ok(t) && t@ == s@
            } else {
                r matches Err(RelayError::UnknownStop(t)) && t@ == s@
            },
        },
{
    match stop {
        None => Ok(String::from_str(DEFAULT_STOPS)),
        Some(s) => {
            let east = String::from_str(STOP_EAST);
            let west = String::from_str(STOP_WEST);
            if s == east || s == west {
                Ok(s)
            } else {
                Err(RelayError::UnknownStop(s))
            }
        },
    }
}

/// The address of a pass-through fetch; `MissingUrl` when none is given.
pub fn fetch_target(url: Option<String>) -> (r: Result<String, RelayError>)
    ensures
        url matches Some(u) ==> (r matches Ok(t) && t@ == u@),
        url is None ==> r matches Err(RelayError::MissingUrl),
{
    match url {
        Some(u) => Ok(u),
        None => Err(RelayError::MissingUrl),
    }
}

/// The service address that asks, with API key `key`, for predictions at
/// `stops`, with times to the second, from the feed `FEED_NAME`, as JSON.
pub open spec fn request_url(key: Seq<char>, stops: Seq<char>) -> Seq<char> {
    BASE_URL@ + "/getpredictions?key="@ + key + "&stpid="@ + stops + "&tmres="@ + TIME_RES@
        + "&rtpidatafeed="@ + FEED_NAME@ + "&format=json"@
}

pub fn prediction_request_url(key: &str, stops: &str) -> (r: String)
    ensures
        r@ == request_url(key@, stops@),
{
    proof {
        reveal_strlit("/getpredictions?key=");
        reveal_strlit("&stpid=");
        reveal_strlit("&tmres=");
        reveal_strlit("&rtpidatafeed=");
        reveal_strlit("&format=json");
    }
    let mut url = String::from_str(BASE_URL);
    url.append("/getpredictions?key=");
    url.append(key);
    url.append("&stpid=");
    url.append(stops);
    url.append("&tmres=");
    url.append(TIME_RES);
    url.append("&rtpidatafeed=");
    url.append(FEED_NAME);
    url.append("&format=json");
    url
}

} // verus!
