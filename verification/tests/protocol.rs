use room_relay::protocol::{
    decode_client_request, encode_server_message, ClientRequest, ProtocolError, ServerMessage,
};

#[test]
fn decode_subscribe_frame() {
    let r = decode_client_request("{\"type\":\"SUBSCRIBE\",\"payload\":{\"room\":\"btc-2025\"}}");
    match r {
        Ok(ClientRequest::Subscribe { payload }) => assert_eq!(payload.room, "btc-2025"),
        other => panic!("expected Subscribe, got {:?}", other),
    }
}

#[test]
fn decode_unsubscribe_frame() {
    let r = decode_client_request("{\"type\":\"UNSUBSCRIBE\",\"payload\":{\"room\":\"r1\"}}");
    match r {
        Ok(ClientRequest::Unsubscribe { payload }) => assert_eq!(payload.room, "r1"),
        other => panic!("expected Unsubscribe, got {:?}", other),
    }
}

#[test]
fn decode_send_message_frame() {
    let r = decode_client_request(
        "{\"type\":\"SEND_MESSAGE\",\"payload\":{\"room\":\"r1\",\"message\":\"hi\"}}",
    );
    match r {
        Ok(ClientRequest::SendMessage { payload }) => {
            assert_eq!(payload.room, "r1");
            assert_eq!(payload.message, "hi");
        },
        other => panic!("expected SendMessage, got {:?}", other),
    }
}

#[test]
fn decode_accepts_whitespace_and_any_member_order() {
    let r = decode_client_request(
        " { \"payload\" : { \"room\" : \"r\" } ,\n\t\"type\" : \"SUBSCRIBE\" } ",
    );
    match r {
        Ok(ClientRequest::Subscribe { payload }) => assert_eq!(payload.room, "r"),
        other => panic!("expected Subscribe, got {:?}", other),
    }
    let r2 = decode_client_request(
        "{\"type\":\"SEND_MESSAGE\",\"payload\":{\"message\":\"m\",\"room\":\"r\"}}",
    );
    match r2 {
        Ok(ClientRequest::SendMessage { payload }) => {
            assert_eq!(payload.room, "r");
            assert_eq!(payload.message, "m");
        },
        other => panic!("expected SendMessage, got {:?}", other),
    }
}

#[test]
fn decode_handles_string_escapes() {
    let r = decode_client_request(
        "{\"type\":\"SEND_MESSAGE\",\"payload\":{\"room\":\"a\\\"b\",\"message\":\"l1\\nl2\\t\\\\ \\u0041\"}}",
    );
    match r {
        Ok(ClientRequest::SendMessage { payload }) => {
            assert_eq!(payload.room, "a\"b");
            assert_eq!(payload.message, "l1\nl2\t\\ A");
        },
        other => panic!("expected SendMessage, got {:?}", other),
    }
}

#[test]
fn decode_rejects_malformed_frames() {
    assert!(matches!(
        decode_client_request(""),
        Err(ProtocolError::Malformed)
    ));
    assert!(matches!(
        decode_client_request("not json"),
        Err(ProtocolError::Malformed)
    ));
    assert!(matches!(
        decode_client_request("{\"type\":\"SUBSCRIBE\""),
        Err(ProtocolError::Malformed)
    ));
    // trailing garbage after the frame
    assert!(matches!(
        decode_client_request("{\"type\":\"SUBSCRIBE\",\"payload\":{\"room\":\"r\"}} x"),
        Err(ProtocolError::Malformed)
    ));
    // bad escape and unterminated string
    assert!(matches!(
        decode_client_request("{\"type\":\"SUBSCRIBE\",\"payload\":{\"room\":\"\\q\"}}"),
        Err(ProtocolError::Malformed)
    ));
    assert!(matches!(
        decode_client_request("{\"type\":\"SUB"),
        Err(ProtocolError::Malformed)
    ));
}

#[test]
fn decode_rejects_unknown_tags_exactly() {
    assert!(matches!(
        decode_client_request("{\"type\":\"PUBLISH\",\"payload\":{\"room\":\"r\"}}"),
        Err(ProtocolError::UnknownTag)
    ));
    // tag matching is case-sensitive
    assert!(matches!(
        decode_client_request("{\"type\":\"subscribe\",\"payload\":{\"room\":\"r\"}}"),
        Err(ProtocolError::UnknownTag)
    ));
    assert!(matches!(
        decode_client_request("{\"type\":\"SUBSCRIBE \",\"payload\":{\"room\":\"r\"}}"),
        Err(ProtocolError::UnknownTag)
    ));
}

#[test]
fn decode_reports_missing_fields() {
    // no payload member at all
    assert!(matches!(
        decode_client_request("{\"type\":\"SUBSCRIBE\"}"),
        Err(ProtocolError::MissingField)
    ));
    // no type member
    assert!(matches!(
        decode_client_request("{\"payload\":{\"room\":\"r\"}}"),
        Err(ProtocolError::MissingField)
    ));
    // empty frame object
    assert!(matches!(
        decode_client_request("{}"),
        Err(ProtocolError::MissingField)
    ));
    // payload lacks the required room
    assert!(matches!(
        decode_client_request("{\"type\":\"SUBSCRIBE\",\"payload\":{}}"),
        Err(ProtocolError::MissingField)
    ));
    // SEND_MESSAGE payload lacks the message
    assert!(matches!(
        decode_client_request("{\"type\":\"SEND_MESSAGE\",\"payload\":{\"room\":\"r\"}}"),
        Err(ProtocolError::MissingField)
    ));
}

#[test]
fn decode_reports_wrong_shapes() {
    // payload is a string, not an object
    assert!(matches!(
        decode_client_request("{\"type\":\"SUBSCRIBE\",\"payload\":\"r\"}"),
        Err(ProtocolError::WrongShape)
    ));
    // type is an object, not a string
    assert!(matches!(
        decode_client_request("{\"type\":{\"room\":\"r\"},\"payload\":{\"room\":\"r\"}}"),
        Err(ProtocolError::WrongShape)
    ));
    // a field the tag does not take
    assert!(matches!(
        decode_client_request("{\"type\":\"SUBSCRIBE\",\"payload\":{\"room\":\"r\",\"extra\":\"x\"}}"),
        Err(ProtocolError::WrongShape)
    ));
    // a repeated field
    assert!(matches!(
        decode_client_request("{\"type\":\"SUBSCRIBE\",\"payload\":{\"room\":\"a\",\"room\":\"b\"}}"),
        Err(ProtocolError::WrongShape)
    ));
    // an unknown frame member
    assert!(matches!(
        decode_client_request("{\"kind\":\"SUBSCRIBE\",\"payload\":{\"room\":\"r\"}}"),
        Err(ProtocolError::WrongShape)
    ));
}

#[test]
fn encode_server_message_exact_text() {
    let m = ServerMessage { room: String::from("btc-2025"), data: String::from("{\"price\":100}") };
    assert_eq!(
        encode_server_message(&m),
        "{\"room\":\"btc-2025\",\"data\":\"{\\\"price\\\":100}\"}"
    );
}

#[test]
fn encode_escapes_special_chars() {
    let m = ServerMessage { room: String::from("a\"b\\c"), data: String::from("l1\nl2\t\r\u{0001}") };
    assert_eq!(
        encode_server_message(&m),
        "{\"room\":\"a\\\"b\\\\c\",\"data\":\"l1\\nl2\\t\\r\\u0001\"}"
    );
}

#[test]
fn decode_recovers_encoded_content() {
    // what the encoder writes into a string literal, the decoder reads back
    let m = ServerMessage { room: String::from("r\"1"), data: String::from("x") };
    let frame = encode_server_message(&m);
    // reuse the encoded room text inside an inbound frame
    let inbound = format!(
        "{{\"type\":\"SUBSCRIBE\",\"payload\":{{\"room\":\"{}\"}}}}",
        "r\\\"1"
    );
    match decode_client_request(&inbound) {
        Ok(ClientRequest::Subscribe { payload }) => assert_eq!(payload.room, "r\"1"),
        other => panic!("expected Subscribe, got {:?}", other),
    }
    assert!(frame.starts_with("{\"room\":\"r\\\"1\""));
}
