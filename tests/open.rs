use stream_protocol::commands::open::{OpenCommand, OpenResponse};
use stream_protocol::commands::{
    decode_response, decode_response_header, encode_command, Command, Encoder, Response, COMMAND_OPEN,
};
use stream_protocol::error::{DecodeError, EncodeError};
use stream_protocol::properties::Properties;
use stream_protocol::response::ResponseCode;
use stream_protocol::types::CorrelationId;

fn sample_response() -> OpenResponse {
    let mut properties = Properties::new();
    properties.insert("test".to_owned(), "test".to_owned());
    OpenResponse::new(1.into(), ResponseCode::Success, properties)
}

#[test]
fn open_request_test() {
    let mut buffer = vec![];

    let open = OpenCommand::new(1.into(), "test".to_owned());

    let _ = open.encode(&mut buffer);

    let (remaining, decoded) = OpenCommand::decode(&buffer).unwrap();

    assert_eq!(open, decoded);

    assert!(remaining.is_empty());
}

#[test]
fn open_response_test() {
    let mut buffer = vec![];

    let mut properties = Properties::new();

    properties.insert("test".to_owned(), "test".to_owned());

    let open_response = OpenResponse::new(1.into(), ResponseCode::Success, properties);

    let _ = open_response.encode(&mut buffer);

    let (remaining, decoded) = OpenResponse::decode(&buffer).unwrap();

    assert_eq!(open_response, decoded);

    assert!(remaining.is_empty());
}

#[test]
fn open_request_exact_bytes() {
    let mut buffer = vec![];
    let open = OpenCommand::new(1.into(), "test".to_owned());
    assert_eq!(open.encode(&mut buffer), Ok(()));
    assert_eq!(buffer, vec![0, 0, 0, 1, 0, 4, b't', b'e', b's', b't']);
}

#[test]
fn open_response_exact_bytes() {
    let mut buffer = vec![];
    assert_eq!(sample_response().encode(&mut buffer), Ok(()));
    assert_eq!(
        buffer,
        vec![0, 0, 0, 1, 0, 1, 0, 0, 0, 1, 0, 4, b't', b'e', b's', b't', 0, 4, b't', b'e', b's', b't']
    );
}

#[test]
fn encoded_size_matches_request_bytes() {
    for host in ["", "test", "h\u{e9}llo", "\u{1f600}/vhost"] {
        let open = OpenCommand::new(7.into(), host.to_owned());
        let mut buffer = vec![];
        assert_eq!(open.encode(&mut buffer), Ok(()));
        assert_eq!(open.encoded_size(), Ok(buffer.len() as u32));
    }
}

#[test]
fn encoded_size_matches_response_bytes() {
    let mut properties = Properties::new();
    properties.insert("advertised_host".to_owned(), "broker-1".to_owned());
    properties.insert("advertised_port".to_owned(), "5552".to_owned());
    properties.insert("n\u{e4}me".to_owned(), "".to_owned());
    let response = OpenResponse::new(3.into(), ResponseCode::Success, properties);
    let mut buffer = vec![];
    assert_eq!(response.encode(&mut buffer), Ok(()));
    assert_eq!(response.encoded_size(), Ok(buffer.len() as u32));
    assert_eq!(response.encoded_size(), Ok(4 + 2 + 4 + 2 * (2 + 15) + 2 + 8 + 2 + 4 + 2 + 5 + 2));
}

#[test]
fn encoded_size_of_empty_response() {
    let response = OpenResponse::new(9.into(), ResponseCode::AccessRefused, Properties::new());
    let mut buffer = vec![];
    assert_eq!(response.encode(&mut buffer), Ok(()));
    assert_eq!(buffer, vec![0, 0, 0, 9, 0, 0x10, 0, 0, 0, 0]);
    assert_eq!(response.encoded_size(), Ok(10));
}

#[test]
fn correlation_id_is_kept_exactly() {
    let mut buffer = vec![];
    let response = OpenResponse::new(0xDEAD_BEEF.into(), ResponseCode::Success, Properties::new());
    assert_eq!(response.encode(&mut buffer), Ok(()));
    let (_, decoded) = OpenResponse::decode(&buffer).unwrap();
    assert_eq!(decoded.correlation_id(), CorrelationId(0xDEAD_BEEF));
    assert_eq!(decoded.correlation_id().value(), 0xDEAD_BEEF);
}

#[test]
fn truncated_open_request_is_incomplete() {
    let mut buffer = vec![];
    let open = OpenCommand::new(1.into(), "test".to_owned());
    assert_eq!(open.encode(&mut buffer), Ok(()));
    assert_eq!(OpenCommand::decode(&buffer[..3]).unwrap_err(), DecodeError::Incomplete);
}

#[test]
fn every_prefix_of_open_response_is_incomplete() {
    let mut buffer = vec![];
    assert_eq!(sample_response().encode(&mut buffer), Ok(()));
    for n in 0..buffer.len() {
        assert_eq!(OpenResponse::decode(&buffer[..n]).unwrap_err(), DecodeError::Incomplete);
    }
}

#[test]
fn every_prefix_of_open_request_is_incomplete() {
    let mut buffer = vec![];
    let open = OpenCommand::new(1.into(), "h\u{e9}llo".to_owned());
    assert_eq!(open.encode(&mut buffer), Ok(()));
    for n in 0..buffer.len() {
        assert_eq!(OpenCommand::decode(&buffer[..n]).unwrap_err(), DecodeError::Incomplete);
    }
}

#[test]
fn unknown_response_code_is_an_error() {
    let buffer = vec![0, 0, 0, 1, 0, 0xff, 0, 0, 0, 0];
    assert_eq!(
        OpenResponse::decode(&buffer).unwrap_err(),
        DecodeError::UnknownResponseCode(0xff)
    );
    assert_eq!(ResponseCode::from_number(0), Err(DecodeError::UnknownResponseCode(0)));
    assert_eq!(ResponseCode::from_number(0x14), Err(DecodeError::UnknownResponseCode(0x14)));
}

#[test]
fn response_code_numbers() {
    assert_eq!(ResponseCode::Success.number(), 1);
    assert_eq!(ResponseCode::NoOffset.number(), 0x13);
    assert_eq!(ResponseCode::from_number(1), Ok(ResponseCode::Success));
    assert_eq!(ResponseCode::from_number(8), Ok(ResponseCode::AuthenticationFailure));
    assert_eq!(ResponseCode::from_number(0x0c), Ok(ResponseCode::VirtualHostAccessFailure));
    assert!(ResponseCode::Success.is_ok());
    assert!(!ResponseCode::AccessRefused.is_ok());
}

#[test]
fn trailing_byte_after_open_response_is_rejected() {
    let mut buffer = vec![];
    assert_eq!(sample_response().encode(&mut buffer), Ok(()));
    assert_eq!(OpenResponse::decode_frame(&buffer), Ok(sample_response()));
    buffer.push(0);
    assert_eq!(OpenResponse::decode_frame(&buffer), Err(DecodeError::NotFullyConsumed(1)));
    assert_eq!(
        decode_response(COMMAND_OPEN, &buffer),
        Err(DecodeError::NotFullyConsumed(1))
    );
}

#[test]
fn response_dispatch_by_key() {
    let mut buffer = vec![];
    assert_eq!(sample_response().encode(&mut buffer), Ok(()));
    assert_eq!(decode_response(COMMAND_OPEN, &buffer), Ok(Response::Open(sample_response())));
    assert_eq!(decode_response(999, &buffer), Err(DecodeError::UnknownCommandKey(999)));
}

#[test]
fn decode_hands_back_the_rest() {
    let mut buffer = vec![];
    let open = OpenCommand::new(5.into(), "vh".to_owned());
    assert_eq!(open.encode(&mut buffer), Ok(()));
    buffer.extend_from_slice(&[9, 8, 7]);
    let (rest, decoded) = OpenCommand::decode(&buffer).unwrap();
    assert_eq!(rest, &[9, 8, 7]);
    assert_eq!(decoded.virtual_host(), "vh");
    assert_eq!(decoded.correlation_id(), CorrelationId(5));
}

#[test]
fn invalid_utf8_text_is_an_error() {
    let buffer = vec![0, 0, 0, 1, 0, 2, 0xc3, 0x28];
    assert_eq!(OpenCommand::decode(&buffer).unwrap_err(), DecodeError::InvalidUtf8);
}

#[test]
fn multibyte_text_round_trip() {
    let mut buffer = vec![];
    let open = OpenCommand::new(2.into(), "h\u{e9}".to_owned());
    assert_eq!(open.encode(&mut buffer), Ok(()));
    assert_eq!(buffer, vec![0, 0, 0, 2, 0, 3, b'h', 0xc3, 0xa9]);
    let (rest, decoded) = OpenCommand::decode(&buffer).unwrap();
    assert!(rest.is_empty());
    assert_eq!(decoded.virtual_host(), "h\u{e9}");
}

#[test]
fn mapping_round_trip_ignores_insertion_order() {
    let mut first = Properties::new();
    first.insert("a".to_owned(), "1".to_owned());
    first.insert("b".to_owned(), "2".to_owned());
    let mut second = Properties::new();
    second.insert("b".to_owned(), "2".to_owned());
    second.insert("a".to_owned(), "1".to_owned());
    for properties in [first, second] {
        let response = OpenResponse::new(1.into(), ResponseCode::Success, properties);
        let mut buffer = vec![];
        assert_eq!(response.encode(&mut buffer), Ok(()));
        let decoded = OpenResponse::decode_frame(&buffer).unwrap();
        let map = decoded.connection_properties();
        assert_eq!(map.len(), 2);
        assert_eq!(map.get("a").map(|s| s.as_str()), Some("1"));
        assert_eq!(map.get("b").map(|s| s.as_str()), Some("2"));
        assert_eq!(map.get("c"), None);
    }
}

#[test]
fn duplicate_keys_on_the_wire_keep_the_last_value() {
    let buffer = vec![
        0, 0, 0, 1, 0, 1, 0, 0, 0, 2, 0, 1, b'k', 0, 1, b'x', 0, 1, b'k', 0, 1, b'y',
    ];
    let decoded = OpenResponse::decode_frame(&buffer).unwrap();
    assert_eq!(decoded.connection_properties().len(), 1);
    assert_eq!(decoded.connection_properties().get("k").map(|s| s.as_str()), Some("y"));
}

#[test]
fn insert_replaces_value_of_existing_key() {
    let mut properties = Properties::new();
    assert!(properties.is_empty());
    properties.insert("k".to_owned(), "1".to_owned());
    properties.insert("k".to_owned(), "2".to_owned());
    assert_eq!(properties.len(), 1);
    assert!(!properties.is_empty());
    assert_eq!(properties.get("k").map(|s| s.as_str()), Some("2"));
}

#[test]
fn oversized_text_is_refused() {
    let open = OpenCommand::new(1.into(), "a".repeat(65536));
    let mut buffer = vec![1];
    assert_eq!(open.encoded_size(), Err(EncodeError::TooLarge));
    assert_eq!(open.encode(&mut buffer), Err(EncodeError::TooLarge));
    assert_eq!(buffer, vec![1]);
    let fits = OpenCommand::new(1.into(), "a".repeat(65535));
    assert_eq!(fits.encoded_size(), Ok(6 + 65535));

    let mut properties = Properties::new();
    properties.insert("k".to_owned(), "b".repeat(65536));
    let response = OpenResponse::new(1.into(), ResponseCode::Success, properties);
    assert_eq!(response.encoded_size(), Err(EncodeError::TooLarge));
    let mut out = vec![];
    assert_eq!(response.encode(&mut out), Err(EncodeError::TooLarge));
    assert!(out.is_empty());
}

#[test]
fn command_frame_has_key_and_version() {
    let open = OpenCommand::new(1.into(), "test".to_owned());
    assert_eq!(open.key(), COMMAND_OPEN);
    let mut buffer = vec![];
    assert_eq!(encode_command(&open, &mut buffer), Ok(()));
    assert_eq!(buffer, vec![0, 21, 0, 1, 0, 0, 0, 1, 0, 4, b't', b'e', b's', b't']);
}

#[test]
fn correlation_id_from_number() {
    let id: CorrelationId = 42.into();
    assert_eq!(id, CorrelationId(42));
    assert_ne!(id, CorrelationId(43));
}

#[test]
fn mappings_compare_by_contents() {
    let mut first = Properties::new();
    first.insert("a".to_owned(), "1".to_owned());
    first.insert("b".to_owned(), "2".to_owned());
    let mut second = Properties::new();
    second.insert("b".to_owned(), "2".to_owned());
    second.insert("a".to_owned(), "1".to_owned());
    assert_eq!(first, second);
    let mut third = Properties::new();
    third.insert("a".to_owned(), "1".to_owned());
    third.insert("b".to_owned(), "3".to_owned());
    assert_ne!(first, third);
    let mut fourth = Properties::new();
    fourth.insert("a".to_owned(), "1".to_owned());
    assert_ne!(first, fourth);
    assert_eq!(
        OpenResponse::new(1.into(), ResponseCode::Success, first),
        OpenResponse::new(1.into(), ResponseCode::Success, second)
    );
}

#[test]
fn response_header_is_read_generically() {
    let mut buffer = vec![];
    let response = OpenResponse::new(77.into(), ResponseCode::StreamNotAvailable, Properties::new());
    assert_eq!(response.encode(&mut buffer), Ok(()));
    assert_eq!(
        decode_response_header(&buffer, 0),
        Ok((CorrelationId(77), ResponseCode::StreamNotAvailable, 6))
    );
    assert_eq!(decode_response_header(&buffer[..5], 0), Err(DecodeError::Incomplete));
    assert_eq!(
        decode_response_header(&[0, 0, 0, 1, 0, 0x30], 0),
        Err(DecodeError::UnknownResponseCode(0x30))
    );
}
