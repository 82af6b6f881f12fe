use bus_sign::model::{RawPrediction, StopGroups};
use bus_sign::relay::{UpstreamBody, shape_body};
use bus_sign::shape::{group_predictions, group_with_offsets};
use bus_sign::stamp::arrival_offset;

fn pred(stop: &str, rt: &str, des: &str, vid: &str, seen: &str, due: &str) -> RawPrediction {
    RawPrediction {
        rt: rt.to_string(),
        des: des.to_string(),
        stpid: stop.to_string(),
        vid: vid.to_string(),
        tmstmp: seen.to_string(),
        prdtm: due.to_string(),
        psgld: "HALF_EMPTY".to_string(),
    }
}

fn seconds_of(stop: &StopGroups, group: usize) -> Vec<i64> {
    stop.groups[group].arrivals.iter().map(|a| a.seconds).collect()
}

#[test]
fn offset_of_timestamp_pair_is_exact() {
    assert_eq!(arrival_offset("20240101 08:00:00", "20240101 08:05:30"), Some(330));
}

#[test]
fn offset_across_midnight_and_negative() {
    assert_eq!(arrival_offset("20231231 23:59:00", "20240101 00:01:00"), Some(120));
    assert_eq!(arrival_offset("20240101 08:05:00", "20240101 08:00:00"), Some(-300));
}

#[test]
fn leap_second_is_counted() {
    assert_eq!(arrival_offset("20240101 08:00:00", "20240101 08:00:60"), Some(60));
}

#[test]
fn grouping_with_given_offsets() {
    let ps = vec![
        pred("4407", "61C", "Downtown", "1", "x", "x"),
        pred("4407", "61C", "Downtown", "2", "x", "x"),
        pred("4407", "71B", "Oakland", "3", "x", "x"),
        pred("4407", "61C", "Downtown", "4", "x", "x"),
    ];
    let out = group_with_offsets(&ps, &vec![Some(600), Some(120), None, Some(120)]);
    assert_eq!(out.len(), 1);
    assert_eq!(out[0].groups.len(), 1);
    assert_eq!(seconds_of(&out[0], 0), vec![120, 120, 600]);
    assert_eq!(out[0].groups[0].arrivals[0].bus_id, "2");
    assert_eq!(out[0].groups[0].arrivals[1].bus_id, "4");
}

#[test]
fn unreadable_timestamp_gives_no_offset() {
    assert_eq!(arrival_offset("not a time", "20240101 08:05:30"), None);
    assert_eq!(arrival_offset("20240101 08:00:00", "2024-01-01 08:05"), None);
    assert_eq!(arrival_offset("20240101\\ 08:00:00", "20240101 08:05:30"), None);
}

#[test]
fn same_route_and_destination_merge() {
    let ps = vec![
        pred("4407", "61C", "Downtown", "1001", "20240101 08:00:00", "20240101 08:10:00"),
        pred("4407", "61C", "Downtown", "1002", "20240101 08:00:00", "20240101 08:03:00"),
    ];
    let out = group_predictions(&ps);
    assert_eq!(out.len(), 1);
    assert_eq!(out[0].stop, "4407");
    assert_eq!(out[0].groups.len(), 1);
    assert_eq!(out[0].groups[0].route, "61C");
    assert_eq!(out[0].groups[0].destination, "Downtown");
    assert_eq!(seconds_of(&out[0], 0), vec![180, 600]);
    assert_eq!(out[0].groups[0].arrivals[0].bus_id, "1002");
    assert_eq!(out[0].groups[0].arrivals[1].bus_id, "1001");
    assert_eq!(out[0].groups[0].arrivals[0].capacity, "HALF_EMPTY");
}

#[test]
fn other_destination_opens_new_group() {
    let ps = vec![
        pred("4407", "61C", "Downtown", "1", "20240101 08:00:00", "20240101 08:10:00"),
        pred("4407", "61C", "McKeesport", "2", "20240101 08:00:00", "20240101 08:05:00"),
        pred("7117", "61C", "Downtown", "3", "20240101 08:00:00", "20240101 08:01:00"),
    ];
    let out = group_predictions(&ps);
    assert_eq!(out.len(), 2);
    assert_eq!(out[0].stop, "4407");
    assert_eq!(out[0].groups.len(), 2);
    assert_eq!(out[0].groups[1].destination, "McKeesport");
    assert_eq!(out[1].stop, "7117");
    assert_eq!(seconds_of(&out[1], 0), vec![60]);
}

#[test]
fn arrivals_sorted_and_none_lost() {
    let dues = ["08:09:00", "08:02:00", "08:07:00", "08:02:00", "08:01:00"];
    let ps: Vec<RawPrediction> = dues
        .iter()
        .enumerate()
        .map(|(i, d)| {
            pred("4407", "71B", "Oakland", &i.to_string(), "20240101 08:00:00", &format!("20240101 {}", d))
        })
        .collect();
    let out = group_predictions(&ps);
    assert_eq!(seconds_of(&out[0], 0), vec![60, 120, 120, 420, 540]);
    // equal offsets keep the order in which they came
    assert_eq!(out[0].groups[0].arrivals[1].bus_id, "1");
    assert_eq!(out[0].groups[0].arrivals[2].bus_id, "3");
}

#[test]
fn unreadable_prediction_is_skipped_alone() {
    let ps = vec![
        pred("4407", "61C", "Downtown", "1", "20240101 08:00:00", "20240101 08:04:00"),
        pred("4407", "61C", "Downtown", "2", "garbage", "20240101 08:02:00"),
        pred("7117", "28X", "Airport", "3", "20240101 08:00:00", "bad"),
        pred("4407", "61C", "Downtown", "4", "20240101 08:00:00", "20240101 08:01:00"),
    ];
    let out = group_predictions(&ps);
    assert_eq!(out.len(), 1);
    assert_eq!(seconds_of(&out[0], 0), vec![60, 240]);
    assert_eq!(out[0].groups[0].arrivals[0].bus_id, "4");
}

#[test]
fn no_predictions_give_no_stops() {
    assert!(group_predictions(&Vec::new()).is_empty());
}

#[test]
fn upstream_error_report_gives_empty_reply() {
    let body = UpstreamBody {
        predictions: Some(vec![pred(
            "4407",
            "61C",
            "Downtown",
            "1",
            "20240101 08:00:00",
            "20240101 08:04:00",
        )]),
        errors: Some(vec!["No data found for parameter".to_string()]),
    };
    assert!(shape_body(&body).is_empty());
    let only_error = UpstreamBody { predictions: None, errors: Some(Vec::new()) };
    assert!(shape_body(&only_error).is_empty());
}

#[test]
fn body_without_predictions_is_empty() {
    let body = UpstreamBody { predictions: None, errors: None };
    assert!(shape_body(&body).is_empty());
}

#[test]
fn body_with_predictions_is_grouped() {
    let body = UpstreamBody {
        predictions: Some(vec![pred(
            "7117",
            "61C",
            "Downtown",
            "1",
            "20240101 08:00:00",
            "20240101 08:05:30",
        )]),
        errors: None,
    };
    let out = shape_body(&body);
    assert_eq!(out.len(), 1);
    assert_eq!(seconds_of(&out[0], 0), vec![330]);
}
