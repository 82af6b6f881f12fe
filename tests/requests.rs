use bus_sign::clean::normalize_escapes;
use bus_sign::relay::{RelayError, fetch_target, prediction_request_url, select_stops};

#[test]
fn backslashes_become_slashes() {
    assert_eq!(normalize_escapes("20240101\\ 08:00:00"), "20240101/ 08:00:00");
    assert_eq!(normalize_escapes("a\\\\b"), "a//b");
    assert_eq!(normalize_escapes("plain"), "plain");
    assert_eq!(normalize_escapes(""), "");
}

#[test]
fn normalized_payload_parses_and_raw_does_not() {
    let raw = "{\"bustime-response\":{\"prd\":[{\"tmstmp\":\"20240101\\ 08:00:00\"}]}}";
    assert!(serde_json::from_str::<serde_json::Value>(raw).is_err());
    let clean = normalize_escapes(raw);
    let v: serde_json::Value = serde_json::from_str(&clean).unwrap();
    assert_eq!(v["bustime-response"]["prd"][0]["tmstmp"], "20240101/ 08:00:00");
}

#[test]
fn unknown_stop_is_caller_error() {
    let r = select_stops(Some("9999".to_string()));
    match r {
        Err(e) => {
            assert!(matches!(e, RelayError::UnknownStop(ref s) if s == "9999"));
            assert_eq!(e.status(), 400);
            assert_eq!(e.message(), "unsupported stop: 9999");
        }
        Ok(_) => panic!("stop 9999 accepted"),
    }
}

#[test]
fn known_and_default_stops() {
    assert_eq!(select_stops(None).ok(), Some("4407,7117".to_string()));
    assert_eq!(select_stops(Some("4407".to_string())).ok(), Some("4407".to_string()));
    assert_eq!(select_stops(Some("7117".to_string())).ok(), Some("7117".to_string()));
}

#[test]
fn fetch_without_url_is_caller_error() {
    let e = fetch_target(None).err().unwrap();
    assert!(matches!(e, RelayError::MissingUrl));
    assert_eq!(e.status(), 400);
    assert_eq!(e.message(), "missing url parameter");
    assert_eq!(fetch_target(Some("http://x/y".to_string())).ok(), Some("http://x/y".to_string()));
}

#[test]
fn upstream_failure_is_bad_gateway() {
    let e = RelayError::Upstream("error sending request: connection refused".to_string());
    assert_eq!(e.status(), 502);
    assert_eq!(e.message(), "API Connect Error: error sending request: connection refused");
}

#[test]
fn decode_failure_is_server_error() {
    let e = RelayError::Decode("expected value at line 1".to_string());
    assert_eq!(e.status(), 500);
    assert_eq!(e.message(), "API Parse Error: expected value at line 1");
}

#[test]
fn request_url_is_assembled() {
    assert_eq!(
        prediction_request_url("KEY", "4407,7117"),
        "http://truetime.portauthority.org/bustime/api/v3/getpredictions?key=KEY&stpid=4407,7117&tmres=s&rtpidatafeed=Port Authority Bus&format=json"
    );
}
