use cdr_bridge::cdr::DecodingError;
use cdr_bridge::srv::{
    add_two_ints, decode_request, decode_response, encode_request, encode_response,
    handle_request, AddTwoIntsRequest, AddTwoIntsResponse, Replies,
};

#[test]
fn request_three_five_bytes() {
    let bytes = encode_request(&AddTwoIntsRequest { a: 3, b: 5 });
    assert_eq!(bytes, vec![3, 0, 0, 0, 0, 0, 0, 0, 5, 0, 0, 0, 0, 0, 0, 0]);
}

#[test]
fn response_eight_bytes() {
    let bytes = encode_response(&AddTwoIntsResponse { sum: 8 });
    assert_eq!(bytes, vec![8, 0, 0, 0, 0, 0, 0, 0]);
}

#[test]
fn negative_values_are_twos_complement() {
    let bytes = encode_request(&AddTwoIntsRequest { a: -1, b: -2 });
    assert_eq!(bytes[0..8], [0xff; 8]);
    assert_eq!(bytes[8..16], [0xfe, 0xff, 0xff, 0xff, 0xff, 0xff, 0xff, 0xff]);
    assert_eq!(decode_request(&bytes), Ok(AddTwoIntsRequest { a: -1, b: -2 }));
}

#[test]
fn short_request_is_truncated() {
    assert_eq!(decode_request(&[0u8; 12]), Err(DecodingError::TruncatedBuffer));
    assert_eq!(decode_request(&[]), Err(DecodingError::TruncatedBuffer));
    assert_eq!(decode_response(&[1, 2, 3]), Err(DecodingError::TruncatedBuffer));
}

#[test]
fn end_to_end_seven_minus_two() {
    let request = encode_request(&AddTwoIntsRequest { a: 7, b: -2 });
    let reply = handle_request(&request).unwrap();
    assert_eq!(decode_response(&reply), Ok(AddTwoIntsResponse { sum: 5 }));
}

#[test]
fn sum_wraps_around() {
    let r = add_two_ints(&AddTwoIntsRequest { a: i64::MAX, b: 1 });
    assert_eq!(r.sum, i64::MIN);
    let r = add_two_ints(&AddTwoIntsRequest { a: i64::MIN, b: -1 });
    assert_eq!(r.sum, i64::MAX);
}

#[test]
fn undecodable_request_gets_no_reply() {
    assert_eq!(handle_request(&[1, 2, 3]), None);
}

#[test]
fn interleaved_calls_stay_independent() {
    let pairs = [(1i64, 2i64), (-10, 4), (1000, -1000), (i64::MAX, i64::MAX), (0, -7)];
    let requests: Vec<Vec<u8>> =
        pairs.iter().map(|&(a, b)| encode_request(&AddTwoIntsRequest { a, b })).collect();
    let replies: Vec<Vec<u8>> =
        requests.iter().rev().map(|r| handle_request(r).unwrap()).collect();
    for (i, &(a, b)) in pairs.iter().rev().enumerate() {
        assert_eq!(decode_response(&replies[i]).unwrap().sum, a.wrapping_add(b));
    }
}

#[test]
fn no_responder_means_no_replies() {
    let replies = Replies::new();
    assert!(replies.responses.is_empty());
    assert!(replies.failures.is_empty());
}

#[test]
fn bad_reply_does_not_stop_collection() {
    let mut replies = Replies::new();
    replies.accept(&encode_response(&AddTwoIntsResponse { sum: 4 }));
    replies.accept(&[1, 2]);
    replies.accept(&encode_response(&AddTwoIntsResponse { sum: -9 }));
    assert_eq!(
        replies.responses,
        vec![AddTwoIntsResponse { sum: 4 }, AddTwoIntsResponse { sum: -9 }]
    );
    assert_eq!(replies.failures, vec![DecodingError::TruncatedBuffer]);
}
