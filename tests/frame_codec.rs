use channel::frame::{decode_frame, decode_payload, RequestPayload};

#[test]
fn test_ws_request_json_heartbeat() {
    // Test full message with join payload
    let msg = decode_frame(r#"["1", "ref1", "room123", "heartbeat", {}]"#).unwrap();

    assert_eq!(msg.join_ref, Some("1".to_string()));
    assert_eq!(msg.event_ref, "ref1");
    assert_eq!(msg.topic, "room123");
    assert_eq!(msg.event, "heartbeat");
    assert_eq!(msg.payload, decode_payload("{}"));
    assert_eq!(msg.payload, RequestPayload::JsonValue("{}".to_string()));
}

#[test]
fn test_ws_request_json_join() {
    // Test full message with join payload
    let msg = decode_frame(r#"["1", "ref1", "room123", "phx_join", {"token": "secret_token"}]"#).unwrap();

    assert_eq!(msg.join_ref, Some("1".to_string()));
    assert_eq!(msg.event_ref, "ref1");
    assert_eq!(msg.topic, "room123");
    assert_eq!(msg.event, "phx_join");
    assert_eq!(
        msg.payload,
        RequestPayload::Join {
            token: "secret_token".to_string()
        }
    );
}

#[test]
fn test_ws_request_json_message() {
    let json = r#"["1", "ref4", "room123", "message", {"message": "Hello, World!"}]"#;

    let msg = decode_frame(json).unwrap();
    assert_eq!(msg.event, "message");
    assert_eq!(
        msg.payload,
        RequestPayload::Message {
            message: "Hello, World!".to_string()
        }
    );
}

#[test]
fn test_ws_request_json_message_payload() {
    let payload = decode_payload("{}");
    assert_eq!(payload, RequestPayload::JsonValue("{}".to_string()));

    let payload = decode_payload(r#"{"token": "another_token"}"#);
    assert_eq!(
        payload,
        RequestPayload::Join {
            token: "another_token".to_string()
        }
    );

    let payload = decode_payload(r#"{ "message": "test message" }"#);
    assert_eq!(
        payload,
        RequestPayload::Message {
            message: "test message".to_string()
        }
    );
}

#[test]
fn test_ws_request_json_invalid() {
    // Invalid array length
    assert!(decode_frame(r#"["1", "ref1", "room123"]"#).is_none());
    assert!(decode_frame(r#"["1", "ref1", "room123", "phx_join"]"#).is_none());

    // Invalid join payload (wrong format)
    assert!(decode_frame(r#"["1", "ref1", "room123", "phx_join", null]"#).is_some());
    assert!(decode_frame(r#"["1", "ref1", "room123", "phx_join", 23]"#).is_some());
    assert!(decode_frame(r#"["1", "ref1", "room123", "phx_join", 12.4]"#).is_some());
    assert!(decode_frame(r#"["1", "ref1", "room123", "phx_join", "nulldirect_token"]"#).is_some());
    assert!(decode_frame(r#"["1", "ref1", "room123", "phx_join", [1, null, "foobar"]]"#).is_some());

    // Invalid type for number elements
    assert!(decode_frame(r#"[123, "ref1", "room123", "phx_join", {"token": "secret"}]"#).is_none());
}
