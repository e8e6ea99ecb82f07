//! Requests to Loki and its answers.

use francis::loki::{
    earliest_entry, first_entry, LokiClient, LokiError, QueryRangeData, QueryRangeResponse, Stream,
    REQUEST_TIMEOUT_SECS,
};
use francis::time::{Timestamp, MAX_SECS};

fn stream(values: &[(&str, &str)]) -> Stream {
    Stream {
        values: values.iter().map(|(t, l)| ((*t).to_owned(), (*l).to_owned())).collect(),
    }
}

fn success(streams: Vec<Stream>) -> QueryRangeResponse {
    QueryRangeResponse {
        status: "success".to_owned(),
        data: Some(QueryRangeData { result: streams }),
    }
}

#[test]
fn request_for_the_first_line() {
    let client = LokiClient::new("http://localhost:3100//");
    let start = Timestamp::new(1_704_110_400, 1).unwrap();
    let end = Timestamp::new(1_704_110_460, 0).unwrap();
    let request = client.first_request("{a=\"b\"} |= \"c\"", &start, &end);
    assert_eq!(request.url, "http://localhost:3100/loki/api/v1/query_range");
    let params: Vec<(&str, &str)> =
        request.params.iter().map(|(k, v)| (k.as_str(), v.as_str())).collect();
    assert_eq!(
        params,
        vec![
            ("query", "{a=\"b\"} |= \"c\""),
            ("start", "1704110400000000001"),
            ("end", "1704110460000000000"),
            ("limit", "1"),
            ("direction", "forward"),
        ]
    );
    assert_eq!(REQUEST_TIMEOUT_SECS, 5);
}

#[test]
fn bounds_that_do_not_fit() {
    let client = LokiClient::new("");
    let far = Timestamp::new(MAX_SECS, 0).unwrap();
    let early = Timestamp::new(-1, 999_999_999).unwrap();
    let request = client.first_request("q", &early, &far);
    assert_eq!(request.url, "/loki/api/v1/query_range");
    assert_eq!(request.params[1].1, "-1");
    assert_eq!(request.params[2].1, "0");
}

#[test]
fn the_earliest_line_of_all_streams() {
    let streams = vec![
        stream(&[("30", "c"), ("oops", "x"), ("20", "b")]),
        stream(&[]),
        stream(&[("10", "a"), ("10", "second"), ("-", "y")]),
    ];
    let entry = earliest_entry(&streams).unwrap();
    assert_eq!(entry.line, "a");
    assert_eq!(entry.timestamp.epoch_nanos(), Some(10));

    let entry = first_entry(success(streams)).unwrap().unwrap();
    assert_eq!(entry.line, "a");
}

#[test]
fn negative_timestamps_come_first() {
    let entry = earliest_entry(&vec![stream(&[("5", "later"), ("-5", "earlier")])]).unwrap();
    assert_eq!(entry.line, "earlier");
    assert_eq!((entry.timestamp.seconds(), entry.timestamp.subsec_nanos()), (-1, 999_999_995));
}

#[test]
fn nothing_to_choose_from() {
    assert!(earliest_entry(&vec![]).is_none());
    assert!(earliest_entry(&vec![stream(&[("x", "a"), ("", "b")])]).is_none());
    assert!(matches!(first_entry(success(vec![])), Ok(None)));
}

#[test]
fn answers_that_are_errors() {
    let failed = QueryRangeResponse { status: "error".to_owned(), data: None };
    match first_entry(failed) {
        Err(e) => {
            assert!(matches!(e, LokiError::Status(_, _)));
            assert_eq!(e.message(), "Loki returned status error: query did not succeed");
        }
        Ok(_) => panic!("accepted"),
    }
    let empty = QueryRangeResponse { status: "success".to_owned(), data: None };
    match first_entry(empty) {
        Err(e) => {
            assert!(matches!(e, LokiError::BadResponse));
            assert_eq!(e.message(), "unexpected response shape");
        }
        Ok(_) => panic!("accepted"),
    }
    assert_eq!(LokiError::Http("timed out".to_owned()).message(), "HTTP error: timed out");
}
