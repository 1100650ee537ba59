use channel::control::ChannelControl;
use channel::frame::encode_frame;
use channel::handler::{datetime_handler, handle_message, Plan};
use channel::message::{relay_message, ChannelMessage, Response, ServerMessage, ServerPayload, ServerResponse};
use std::collections::HashSet;

const SECRET: &str = "secret";

fn token(id: &str) -> String {
    let mut claims = serde_json::Map::new();
    claims.insert("id".to_string(), serde_json::Value::String(id.to_string()));
    claims.insert("channel".to_string(), serde_json::Value::String("system".to_string()));
    claims.insert("exp".to_string(), serde_json::Value::from(4102444800u64));
    jsonwebtoken::encode(
        &jsonwebtoken::Header::default(),
        &serde_json::Value::Object(claims),
        &jsonwebtoken::EncodingKey::from_secret(SECRET.as_bytes()),
    )
    .unwrap()
}

fn setup_test_server() -> ChannelControl {
    let mut ctl = ChannelControl::new();
    ctl.new_channel("phoenix".into(), None);
    ctl.new_channel("system".into(), None);
    ctl.new_channel("streaming".into(), None);
    ctl
}

fn as_json(m: &ServerMessage) -> serde_json::Value {
    serde_json::from_str(&encode_frame(m)).unwrap()
}

fn send(ctl: &mut ChannelControl, conn: &str, text: &str) -> Plan {
    handle_message(ctl, conn, None, SECRET, text).unwrap()
}

fn join_frame(join_ref: &str, event_ref: &str, topic: &str, id: &str) -> String {
    format!(r#"["{}","{}","{}","phx_join",{{"token":"{}"}}]"#, join_ref, event_ref, topic, token(id))
}

/// Moves what is waiting in the join's mailboxes on to the connection, as
/// the forwarding and relay tasks do.
fn pump(plan: &mut Plan) {
    let work = plan.join.as_mut().unwrap();
    while let Ok(m) = work.wiring.channel_rx.try_recv() {
        work.wiring.agent_tx.send(m).unwrap();
    }
    while let Ok(m) = work.relay_rx.try_recv() {
        work.conn_tx.send(relay_message(m, work.join_ref.clone())).unwrap();
    }
}

#[test]
fn test_ws_websocket_connection() {
    let mut ctl = setup_test_server();
    ctl.add_connection("c1".into());

    // Test initial connection with heartbeat
    let heartbeat = r#"[null,"1","phoenix","heartbeat",{}]"#;
    let plan = send(&mut ctl, "c1", heartbeat);

    let response = as_json(&plan.replies[0]);
    assert_eq!(response[2], "phoenix");
    assert_eq!(response[3], "phx_reply");
    assert_eq!(response[4]["status"], "ok");
}

#[test]
fn test_ws_channel_join_leave_flow() {
    let mut ctl = setup_test_server();
    ctl.add_connection("c1".into());

    // Join system channel
    let plan = send(&mut ctl, "c1", &join_frame("1", "ref1", "system", "user1"));
    let mut join_confirmed = false;
    for reply in &plan.replies {
        let resp = as_json(reply);
        if resp[1] == "ref1" && resp[2] == "system" && resp[3] == "phx_reply" {
            assert_eq!(resp[4]["status"], "ok");
            join_confirmed = true;
            break;
        }
    }
    assert!(join_confirmed, "Never received join confirmation after reading multiple messages");

    // Check system channel has our agent
    assert_eq!(ctl.channel_agents("system").unwrap().len(), 1);

    // Leave channel
    let plan = send(&mut ctl, "c1", r#"["1","ref2","system","phx_leave",{}]"#);
    let mut leave_confirmed = false;
    for reply in &plan.replies {
        let resp = as_json(reply);
        if resp[1] == "ref2" && resp[2] == "system" && resp[3] == "phx_reply" {
            assert_eq!(resp[4]["status"], "ok");
            leave_confirmed = true;
            break;
        }
    }
    assert!(leave_confirmed, "Never received leave confirmation after reading multiple messages");

    // Verify channel state
    assert_eq!(ctl.channel_agents("system").unwrap().len(), 0);
}

#[test]
fn test_ws_connection_close_websocket() {
    let mut ctl = setup_test_server();
    ctl.add_connection("c1".into());

    // Join system channel
    let _plan = send(&mut ctl, "c1", &join_frame("1", "ref1", "system", "user1"));

    // Verify agent joined
    let agent_count = ctl.channel_agents("system").unwrap().len();
    assert_eq!(agent_count, 1, "Agent should be joined");

    // Close connection
    ctl.remove_connection("c1".into());

    // Verify agent was removed
    let agent_count = ctl.channel_agents("system").unwrap().len();
    assert_eq!(agent_count, 0, "Agent should be removed after connection close");
}

#[test]
fn test_ws_multiple_clients_fixed() {
    let mut ctl = setup_test_server();

    // Connect and join with multiple clients
    let mut clients = vec![];
    for i in 0..3 {
        let conn = format!("conn{}", i);
        ctl.add_connection(conn.clone());
        let plan = send(&mut ctl, &conn, &join_frame(&i.to_string(), &format!("ref{}", i), "system", "user"));
        assert!(plan.join.is_some());
        clients.push(plan);
    }

    // Verify channel has 3 agents
    let agent_count = ctl.channel_agents("system").unwrap().len();
    assert_eq!(agent_count, 3, "Should have 3 agents connected");
}

#[test]
fn test_ws_flow_server() {
    let ctl = setup_test_server();

    let channel_names: HashSet<String> = ctl.channel_list().into_iter().collect();
    assert_eq!(
        channel_names,
        ["phoenix", "system", "streaming"].iter().map(|&s| s.to_string()).collect::<HashSet<String>>()
    );

    let agents = ctl.channel_agents("system").unwrap();
    assert_eq!(agents.len(), 0);
}

#[test]
fn test_ws_message_broadcast() {
    let mut ctl = setup_test_server();
    let mut plans = vec![];
    let mut receivers = vec![];

    // Both clients join system channel
    for i in 1..3 {
        let conn = format!("conn{}", i);
        ctl.add_connection(conn.clone());
        receivers.push(ctl.get_conn_subscription(conn.clone()).unwrap());
        plans.push(send(&mut ctl, &conn, &join_frame(&i.to_string(), &format!("ref{}", i), "system", "user")));
    }

    // Broadcast message to system channel
    let message = ServerMessage {
        join_ref: None,
        event_ref: "broadcast".to_string(),
        topic: "system".to_string(),
        event: "test".to_string(),
        payload: ServerPayload::ServerResponse(ServerResponse {
            status: "ok".to_string(),
            response: Response::Message { message: "test broadcast".to_string() },
        }),
    };
    ctl.broadcast("system".to_string(), ChannelMessage::Reply(message)).unwrap();

    for plan in plans.iter_mut() {
        pump(plan);
    }

    // Both clients should receive the message
    for rx in receivers.iter_mut() {
        let ChannelMessage::Reply(msg) = rx.try_recv().unwrap();
        let resp = as_json(&msg);
        assert_eq!(resp[1], "broadcast");
        assert_eq!(resp[4]["response"]["message"], "test broadcast");
    }
}

#[test]
fn test_ws_invalid_messages() {
    let mut ctl = setup_test_server();
    ctl.add_connection("c1".into());

    // Send invalid JSON
    assert!(handle_message(&mut ctl, "c1", None, SECRET, "invalid json").is_err());

    // Send invalid message format
    assert!(handle_message(&mut ctl, "c1", None, SECRET, r#"["invalid","format"]"#).is_err());

    // Send to non-existent channel
    let invalid_channel = r#"["1","ref1","nonexistent","phx_join",{"token":"test"}]"#;
    let plan = send(&mut ctl, "c1", invalid_channel);
    assert!(plan.join.is_none());
    assert!(plan.replies.is_empty());

    // Connection should still be alive
    let heartbeat = r#"[null,"1","phoenix","heartbeat",{}]"#;
    let plan = send(&mut ctl, "c1", heartbeat);
    let resp = as_json(&plan.replies[0]);
    assert_eq!(resp[2], "phoenix");
    assert_eq!(resp[4]["status"], "ok");
}

#[test]
fn test_ws_system_channel() {
    let mut ctl = setup_test_server();
    ctl.add_connection("c1".into());
    let mut rx = ctl.get_conn_subscription("c1".into()).unwrap();

    // Join system channel
    let mut plan = send(&mut ctl, "c1", &join_frame("1", "ref1", "system", "user1"));

    // Should receive initial join response
    let resp = as_json(&plan.replies[0]);
    assert_eq!(resp[2], "system");
    assert_eq!(resp[4]["status"], "ok");

    // Should receive datetime updates
    datetime_handler(&ctl, "system", 0, "2024-01-01T00:00:00.000+00:00".to_string()).unwrap();
    pump(&mut plan);
    let ChannelMessage::Reply(msg) = rx.try_recv().unwrap();
    let resp = as_json(&msg);
    assert_eq!(resp[2], "system");
    assert!(resp[4]["response"]["datetime"].is_string());
}
