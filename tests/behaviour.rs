use channel::channel::Channel;
use channel::control::{ChannelControl, ChannelError};
use channel::frame::{decode_frame, encode_frame, encode_payload};
use channel::handler::{datetime_message, handle_message, redis_message};
use channel::message::{ok_reply, ChannelMessage, Response, ServerMessage, ServerPayload, ServerResponse};
use channel::names::{agent_id, event_of_topic, from_topic, is_agent_of_connection, is_special_channel};
use channel::presence::{presence_diff, presence_of, PresenceAction};
use channel::token::verify_token;
use tokio::sync::broadcast;

const SECRET: &str = "secret";

fn token_for(id: &str, secret: &str) -> String {
    let mut claims = serde_json::Map::new();
    claims.insert("id".to_string(), serde_json::Value::String(id.to_string()));
    claims.insert("channel".to_string(), serde_json::Value::String("room".to_string()));
    claims.insert("exp".to_string(), serde_json::Value::from(4102444800u64));
    jsonwebtoken::encode(
        &jsonwebtoken::Header::default(),
        &serde_json::Value::Object(claims),
        &jsonwebtoken::EncodingKey::from_secret(secret.as_bytes()),
    )
    .unwrap()
}

fn join_text(join_ref: &str, topic: &str, id: &str) -> String {
    format!(r#"["{}","ref","{}","phx_join",{{"token":"{}"}}]"#, join_ref, topic, token_for(id, SECRET))
}

fn text_message(text: &str) -> ChannelMessage {
    ChannelMessage::Reply(ServerMessage {
        join_ref: None,
        event_ref: "1".to_string(),
        topic: "room".to_string(),
        event: "note".to_string(),
        payload: ServerPayload::ServerResponse(ServerResponse {
            status: "ok".to_string(),
            response: Response::Message { message: text.to_string() },
        }),
    })
}

#[test]
fn frame_round_trip_keeps_the_five_fields() {
    let text = r#"[ "7", "ref9", "room", "note", {"a": [1, 2], "b": null} ]"#;
    let m = decode_frame(text).unwrap();
    let payload = encode_payload(&ServerPayload::ServerJsonValue(match &m.payload {
        channel::frame::RequestPayload::JsonValue(t) => t.clone(),
        _ => panic!("payload should stay JSON"),
    }));
    let out = ServerMessage {
        join_ref: m.join_ref.clone(),
        event_ref: m.event_ref.clone(),
        topic: m.topic.clone(),
        event: m.event.clone(),
        payload: ServerPayload::ServerJsonValue(payload),
    };
    let encoded = encode_frame(&out);
    let a: serde_json::Value = serde_json::from_str(text).unwrap();
    let b: serde_json::Value = serde_json::from_str(&encoded).unwrap();
    assert_eq!(a, b);
    let again = decode_frame(&encoded).unwrap();
    assert_eq!(again.join_ref, m.join_ref);
    assert_eq!(again.event_ref, m.event_ref);
    assert_eq!(again.topic, m.topic);
    assert_eq!(again.event, m.event);
    assert_eq!(again.payload, m.payload);
}

#[test]
fn encoded_reply_is_exact() {
    let m = ok_reply("c1", None, "1", "phoenix");
    assert_eq!(encode_frame(&m), r#"[null,"1","phoenix","phx_reply",{"status":"ok","response":{}}]"#);
    let m = ok_reply("c1", Some("3".to_string()), "r\"q", "room");
    assert_eq!(
        encode_frame(&m),
        r#"["3","r\"q","room","phx_reply",{"status":"ok","response":{"id":"c1:room:3"}}]"#
    );
}

#[test]
fn channel_add_twice_leaves_one_channel() {
    let mut ctl = ChannelControl::new();
    ctl.new_channel("room".into(), None);
    ctl.new_channel("room".into(), None);
    ctl.new_channel("room".into(), Some(5));
    assert_eq!(ctl.channel_count(), 1);
    assert_eq!(ctl.channel_list(), vec!["room".to_string()]);
}

#[test]
fn matched_joins_and_leaves_leave_no_member() {
    let mut ch = Channel::new("room".to_string(), Some(4));
    for a in ["a1", "a2", "a1", "a3"] {
        let _ = ch.join(a.to_string());
    }
    assert_eq!(ch.agents().clone(), vec!["a1".to_string(), "a2".to_string(), "a3".to_string()]);
    ch.leave("a2".to_string());
    assert_eq!(ch.agents().clone(), vec!["a1".to_string(), "a3".to_string()]);
    ch.leave("a1".to_string());
    ch.leave("a3".to_string());
    ch.leave("a3".to_string());
    assert!(ch.empty());
}

#[test]
fn last_leave_removes_an_ordinary_channel() {
    let mut ctl = ChannelControl::new();
    ctl.add_connection("c1".into());
    let plan = handle_message(&mut ctl, "c1", None, SECRET, &join_text("1", "room", "u1")).unwrap();
    assert!(plan.join.as_ref().unwrap().launch_listener);
    assert!(ctl.contains_channel("room"));
    assert!(ctl.needs_listener("room"));
    let plan = handle_message(&mut ctl, "c1", None, SECRET, r#"["1","ref2","room","phx_leave",{}]"#).unwrap();
    assert_eq!(plan.replies.len(), 1);
    assert!(!ctl.contains_channel("room"));
    assert!(!ctl.needs_listener("room"));
}

#[test]
fn special_channels_stay_when_empty() {
    let mut ctl = ChannelControl::new();
    for n in ["phoenix", "admin", "system"] {
        ctl.new_channel(n.to_string(), None);
    }
    ctl.add_connection("c1".into());
    for n in ["phoenix", "admin", "system"] {
        let plan = handle_message(&mut ctl, "c1", None, SECRET, &join_text("1", n, "u1")).unwrap();
        assert!(plan.join.is_some());
        assert!(!plan.join.as_ref().unwrap().launch_listener);
        let leave = format!(r#"["1","ref2","{}","phx_leave",{{}}]"#, n);
        handle_message(&mut ctl, "c1", None, SECRET, &leave).unwrap();
        assert!(ctl.contains_channel(n));
        assert_eq!(ctl.channel_agents(n).unwrap().len(), 0);
    }
    assert_eq!(ctl.channel_count(), 3);
}

#[test]
fn broadcast_counts_each_subscriber() {
    let mut ctl = ChannelControl::new();
    ctl.new_channel("room".into(), None);
    let mut held = Vec::new();
    for a in ["x", "y"] {
        ctl.add_agent(a.to_string(), None);
        held.push(ctl.join_channel("room", a.to_string()).unwrap());
    }
    assert_eq!(ctl.broadcast("room".into(), text_message("hi")).unwrap(), 2);
}

#[test]
fn a_prompt_reader_of_a_full_mailbox_reads_the_last_two() {
    let (tx, mut rx) = broadcast::channel::<&str>(2);
    tx.send("msg1").unwrap();
    tx.send("msg2").unwrap();
    tx.send("msg3").unwrap();
    assert!(matches!(rx.try_recv(), Err(broadcast::error::TryRecvError::Lagged(1))));
    assert_eq!(rx.try_recv().unwrap(), "msg2");
    assert_eq!(rx.try_recv().unwrap(), "msg3");
}

#[test]
fn presence_state_names_the_joining_agent() {
    let mut ctl = ChannelControl::new();
    ctl.add_connection("c1".into());
    ctl.add_connection("c2".into());
    handle_message(&mut ctl, "c2", None, SECRET, &join_text("5", "room", "u1")).unwrap();
    let plan = handle_message(&mut ctl, "c1", None, SECRET, &join_text("1", "room", "u1")).unwrap();
    let state: serde_json::Value = serde_json::from_str(&encode_frame(&plan.replies[1])).unwrap();
    assert_eq!(state[3], "presence_state");
    let metas = state[4]["u1"]["metas"].as_array().unwrap();
    assert_eq!(metas.len(), 2);
    assert_eq!(metas[0]["phx_ref"], "c2:room:5");
    assert_eq!(metas[1]["phx_ref"], "c1:room:1");
}

#[test]
fn every_frame_is_mirrored_once() {
    let mut ctl = ChannelControl::new();
    ctl.add_connection("c1".into());
    let plan = handle_message(&mut ctl, "c1", None, SECRET, r#"["1","r","room","note",{"message":"hey"}]"#).unwrap();
    let mirrored: Vec<_> = plan.publications.iter().filter(|p| p.topic == "from:room:note").collect();
    assert_eq!(mirrored.len(), 1);
    assert_eq!(mirrored[0].message, r#"{"message":"hey"}"#);

    let plan = handle_message(&mut ctl, "c1", None, SECRET, &join_text("1", "room", "u1")).unwrap();
    let topics: Vec<String> = plan.publications.iter().map(|p| p.topic.clone()).collect();
    assert_eq!(topics, vec!["to:room:presence_diff".to_string(), "from:room:phx_join".to_string()]);

    // a heartbeat is announced on the same topic as its mirror
    let plan = handle_message(&mut ctl, "c1", None, SECRET, r#"[null,"1","phoenix","heartbeat",{}]"#).unwrap();
    assert_eq!(plan.publications.len(), 2);
    assert_eq!(plan.publications[0].message, r#"{"conn_id":"c1"}"#);
    assert_eq!(plan.publications[1].topic, "from:phoenix:heartbeat");
    assert_eq!(plan.publications[1].message, "{}");
}

#[test]
fn the_mirror_keeps_every_payload_key() {
    let mut ctl = ChannelControl::new();
    ctl.add_connection("c1".into());
    let plan = handle_message(&mut ctl, "c1", None, SECRET, r#"["1","r","room","note",{"message":"hey","k":1}]"#).unwrap();
    let body: serde_json::Value = serde_json::from_str(&plan.publications.last().unwrap().message).unwrap();
    let sent: serde_json::Value = serde_json::from_str(r#"{"message":"hey","k":1}"#).unwrap();
    assert_eq!(body, sent);
    let plan = handle_message(&mut ctl, "c1", None, SECRET, r#"["1","r","room","phx_join",{"token":"x","k":[1,2]}]"#).unwrap();
    assert!(plan.join.is_none());
    let body: serde_json::Value = serde_json::from_str(&plan.publications.last().unwrap().message).unwrap();
    let sent: serde_json::Value = serde_json::from_str(r#"{"token":"x","k":[1,2]}"#).unwrap();
    assert_eq!(body, sent);
}

#[test]
fn datetime_counter_increases() {
    let mut last: Option<u32> = None;
    for counter in [0u32, 1, 2, 9, 10, 123] {
        let ChannelMessage::Reply(m) = datetime_message("system", counter, "2024-01-01T00:00:00.000+00:00".to_string());
        assert_eq!(m.event_ref, counter.to_string());
        assert_eq!(m.event, "datetime");
        let v: serde_json::Value = serde_json::from_str(&encode_frame(&m)).unwrap();
        let c = v[4]["response"]["counter"].as_u64().unwrap() as u32;
        assert_eq!(c, counter);
        if let Some(p) = last {
            assert!(c > p);
        }
        last = Some(c);
    }
}

#[test]
fn errors_come_where_described() {
    let mut ctl = ChannelControl::new();
    ctl.new_channel("room".into(), None);
    assert_eq!(ctl.broadcast("room".into(), text_message("x")), Err(ChannelError::ChannelEmpty));
    assert_eq!(ctl.broadcast("none".into(), text_message("x")), Err(ChannelError::ChannelNotFound));
    ctl.add_connection("c1".into());
    assert_eq!(ctl.send_to_connction("c1".into(), text_message("x")), Err(ChannelError::MessageSendError));
    let _rx = ctl.get_conn_subscription("c1".into()).unwrap();
    assert_eq!(ctl.send_to_connction("c1".into(), text_message("x")), Ok(1));
    assert_eq!(ctl.send_to_connction("c9".into(), text_message("x")), Err(ChannelError::ChannelNotFound));
    assert!(matches!(ctl.get_agent_subscription("nobody".into()), Err(ChannelError::AgentNotInitiated)));
    assert!(matches!(handle_message(&mut ctl, "c1", None, SECRET, "[1,2"), Err(ChannelError::DecodeError)));
    let frame = decode_frame(r#"["1","r","room","phx_join",{}]"#).unwrap();
    assert!(matches!(
        channel::handler::handle_join(&mut ctl, "c1", &frame, None, SECRET),
        Err(ChannelError::BadToken)
    ));
    assert_eq!(ChannelError::BadToken.describe(), "<BadToken: token missing or invalid>");
}

#[test]
fn tokens_are_checked_against_the_secret() {
    assert_eq!(verify_token(&token_for("u7", SECRET), SECRET), Ok("u7".to_string()));
    assert_eq!(verify_token(&token_for("u7", "other"), SECRET), Err(ChannelError::BadToken));
    assert_eq!(verify_token("test", SECRET), Err(ChannelError::BadToken));
}

#[test]
fn connection_token_is_used_when_the_payload_has_none() {
    let mut ctl = ChannelControl::new();
    ctl.add_connection("c1".into());
    let plan = handle_message(&mut ctl, "c1", Some(token_for("u2", SECRET)), SECRET, r#"["4","r","room","phx_join",{}]"#).unwrap();
    assert_eq!(plan.join.as_ref().unwrap().agent_id, "c1:room:4");
}

#[test]
fn closing_a_connection_removes_its_agents() {
    let mut ctl = ChannelControl::new();
    ctl.new_channel("system".into(), None);
    ctl.add_connection("c1".into());
    ctl.add_connection("c10".into());
    handle_message(&mut ctl, "c1", None, SECRET, &join_text("1", "room", "u1")).unwrap();
    handle_message(&mut ctl, "c1", None, SECRET, &join_text("2", "system", "u1")).unwrap();
    handle_message(&mut ctl, "c10", None, SECRET, &join_text("1", "system", "u9")).unwrap();
    let gone = ctl.remove_connection("c1".into());
    assert_eq!(gone.len(), 2);
    assert!(gone.iter().all(|d| d.external_id == Some("u1".to_string())));
    assert!(!ctl.contains_channel("room"));
    assert_eq!(ctl.channel_agents("system").unwrap(), vec!["c10:system:1".to_string()]);
    assert!(ctl.get_conn_sender("c1".into()).is_err());
    assert!(ctl.get_conn_sender("c10".into()).is_ok());
}

#[test]
fn names_are_built_and_read() {
    assert_eq!(agent_id("c1", "room", "7"), "c1:room:7");
    assert!(is_agent_of_connection("c1:room:7", "c1"));
    assert!(!is_agent_of_connection("c10:room:7", "c1"));
    assert_eq!(from_topic("room", "note"), "from:room:note");
    assert_eq!(event_of_topic("room", "to:room:alert"), Some("alert".to_string()));
    assert_eq!(event_of_topic("room", "to:other:alert"), None);
    assert!(is_special_channel("admin"));
    assert!(!is_special_channel("room"));
}

#[test]
fn redis_messages_become_frames() {
    let m = redis_message("room", "to:room:alert", r#"{"level":3}"#.to_string()).unwrap();
    let ChannelMessage::Reply(f) = m;
    assert_eq!(f.event, "alert");
    assert_eq!(encode_frame(&f), r#"[null,"broadcast","room","alert",{"level":3}]"#);
    assert!(redis_message("room", "to:room:alert", "not json".to_string()).is_none());
    assert!(redis_message("room", "from:room:alert", "{}".to_string()).is_none());
}

#[test]
fn presence_texts_are_exact() {
    let p = presence_diff("room", "a1", "e1", PresenceAction::Join);
    assert_eq!(p.topic, "to:room:presence_diff");
    assert_eq!(p.message, r#"{"joins":{"e1":{"metas":[{"phx_ref":"a1"}]}},"leaves":{}}"#);
    let p = presence_diff("room", "a1", "e1", PresenceAction::Leave);
    assert_eq!(p.message, r#"{"joins":{},"leaves":{"e1":{"metas":[{"phx_ref":"a1"}]}}}"#);
    let text = presence_of(vec![
        ("e1".to_string(), "a1".to_string()),
        ("e2".to_string(), "a2".to_string()),
        ("e1".to_string(), "a3".to_string()),
    ]);
    let v: serde_json::Value = serde_json::from_str(&text).unwrap();
    assert_eq!(v["e1"]["metas"][0]["phx_ref"], "a1");
    assert_eq!(v["e1"]["metas"][1]["phx_ref"], "a3");
    assert_eq!(v["e2"]["metas"][0]["phx_ref"], "a2");
    assert_eq!(v.as_object().unwrap().len(), 2);
}

#[test]
fn admin_join_summarises_channels() {
    let mut ctl = ChannelControl::new();
    ctl.new_channel("admin".into(), None);
    ctl.add_connection("c1".into());
    let plan = handle_message(&mut ctl, "c1", None, SECRET, &join_text("1", "admin", "u1")).unwrap();
    assert_eq!(plan.publications[0].topic, "to:admin:channels");
    assert_eq!(plan.publications[0].message, r#"{"agents":["c1:admin:1"],"channel":"admin"}"#);
    let add = channel::handler::add_channel(&mut ctl, "room".to_string());
    assert_eq!(add.message, r#"{"channel":"room","channels":["admin","room"]}"#);
}
