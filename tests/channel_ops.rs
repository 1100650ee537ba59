use channel::channel::Channel;
use channel::control::{ChannelControl, ChannelError};
use channel::message::{ChannelMessage, Response, ServerMessage, ServerPayload, ServerResponse};
use tokio::sync::broadcast;

fn create_test_message(topic: &str, reference: &str, message: &str) -> ChannelMessage {
    ChannelMessage::Reply(ServerMessage {
        join_ref: None,
        event_ref: reference.to_string(),
        topic: topic.to_string(),
        event: "test_event".to_string(),
        payload: ServerPayload::ServerResponse(ServerResponse {
            status: "ok".to_string(),
            response: Response::Message { message: message.to_string() },
        }),
    })
}

#[test]
fn test_broadcast_capacity() {
    let capacity = 2;
    let (tx, mut rx1) = broadcast::channel::<&str>(capacity);
    let mut rx2 = tx.subscribe();

    tx.send("msg1").unwrap();
    tx.send("msg2").unwrap();
    tx.send("msg3").unwrap(); // the first message is discarded when the third message is sent, as it was never read

    let mut r1_messages = Vec::new();
    while let Ok(msg) = rx1.try_recv() {
        r1_messages.push(msg);
    }

    let mut r2_messages = Vec::new();
    while let Ok(msg) = rx2.try_recv() {
        r2_messages.push(msg);
    }

    assert!(
        !r1_messages.contains(&"msg1") || !r2_messages.contains(&"msg1"),
        "`msg1` is lost in one of them"
    );
}

#[test]
fn test_channel_creation_and_basic_ops() {
    let mut channel = Channel::new("test".to_string(), None);
    assert_eq!(channel.name, "test");
    assert!(channel.empty());

    // Test joining
    let agent_id = "agent1".to_string();
    let _tx = channel.join(agent_id.clone());
    assert!(!channel.empty());

    // Test agent count
    assert_eq!(channel.agents().len(), 1);

    // Test duplicate join
    let _tx2 = channel.join(agent_id.clone());
    assert_eq!(channel.agents().len(), 1); // Should not increase

    // Test leave
    channel.leave(agent_id);
    assert!(channel.empty());
}

#[test]
fn test_channel_message_broadcast() {
    let mut channel = Channel::new("test".to_string(), Some(10));
    let agent_id = "agent1".to_string();

    // Join and get sender
    let tx = channel.join(agent_id.clone());
    let mut rx = tx.subscribe();

    // Test message sending
    let test_msg = create_test_message("test", "1", "hello");
    let recv_count = channel.send(test_msg.clone()).unwrap();
    assert_eq!(recv_count, 1);

    // Verify received message
    if let Ok(ChannelMessage::Reply(msg)) = rx.try_recv() {
        assert_eq!(msg.topic, "test");
        if let ServerPayload::ServerResponse(ServerResponse { response: Response::Message { message }, .. }) = msg.payload {
            assert_eq!(message, "hello");
        } else {
            panic!("Wrong response type");
        }
    } else {
        panic!("Failed to receive message");
    }
}

#[test]
fn test_channel_error_cases() {
    let mut ctl = ChannelControl::new();

    // Test non-existent channel
    let result = ctl.join_channel("nonexistent", "user1".into());
    assert!(matches!(result.unwrap_err(), ChannelError::ChannelNotFound));

    // Test non-initiated agent
    ctl.new_channel("room1".into(), None);
    let result = ctl.join_channel("room1", "user1".into());
    assert!(matches!(result.unwrap_err(), ChannelError::AgentNotInitiated));

    // Test leave non-existent channel
    let result = ctl.leave_channel("nonexistent".into(), "user1".into());
    assert!(matches!(result.unwrap_err(), ChannelError::ChannelNotFound));
}

#[test]
fn test_agent_subscription() {
    let mut ctl = ChannelControl::new();

    // Setup channels and agent
    ctl.new_channel("room1".into(), None);
    ctl.add_agent("user1".into(), None);

    // Test subscription before join
    let sub = ctl.get_agent_subscription("user1".into());
    assert!(sub.is_ok());

    // Join channel and test broadcasting; the wiring is what the forwarding
    // task would hold
    let _wiring = ctl.join_channel("room1", "user1".into()).unwrap();
    let msg = create_test_message("room1", "1", "test");
    let count = ctl.broadcast("room1".into(), msg).unwrap();
    assert_eq!(count, 1);

    // Test subscription after removal
    ctl.remove_agent("user1".into());
    let sub = ctl.get_agent_subscription("user1".into());
    assert!(matches!(sub.unwrap_err(), ChannelError::AgentNotInitiated));
}

#[test]
fn test_ctl_add_remove() {
    let mut ctl = ChannelControl::new();
    assert_eq!(ctl.channel_count(), 0);

    ctl.new_channel("test".into(), None);
    assert_eq!(ctl.channel_count(), 1);

    ctl.remove_channel("test".into());
    assert_eq!(ctl.channel_count(), 0);
}

#[test]
fn test_join_leave() {
    let mut ctl = ChannelControl::new();

    ctl.new_channel("test".into(), None); // new channel

    // new agent
    let agent_id = "agent1".to_string();
    ctl.add_agent(agent_id.clone(), None);

    // join channel
    let result = ctl.join_channel("test", agent_id.clone());
    assert!(result.is_ok(), "Should successfully join channel");

    // leave channel
    let result = ctl.leave_channel("test".to_string(), agent_id.clone());
    assert!(result.is_ok(), "Should successfully leave channel");
}

#[test]
fn test_channel_basics() {
    let mut ctl = ChannelControl::new();

    // new channel
    ctl.new_channel("test".into(), None);

    // new agent
    let agent_id = "agent1".to_string();
    ctl.add_agent(agent_id.clone(), None);

    // join channel
    let result = ctl.join_channel("test", agent_id.clone());
    assert!(result.is_ok(), "Should successfully join channel");
    let _wiring = result.unwrap();

    // broadcast message
    let message = ChannelMessage::Reply(ServerMessage {
        join_ref: None,
        event_ref: "1".to_string(),
        topic: "test".to_string(),
        event: "test_event".to_string(),
        payload: ServerPayload::ServerResponse(ServerResponse {
            status: "ok".to_string(),
            response: Response::Message { message: "test message".to_string() },
        }),
    });

    let result = ctl.broadcast("test".to_string(), message);
    assert!(result.is_ok(), "Should successfully broadcast message");
    assert_eq!(result.unwrap(), 1, "Should have 1 receiver");

    // leave channel
    let result = ctl.leave_channel("test".to_string(), agent_id.clone());
    assert!(result.is_ok(), "Should successfully leave channel");
}

#[test]
fn test_multiple_agents() {
    let mut ctl = ChannelControl::new();
    ctl.new_channel("room1".into(), None);

    // Add multiple agents
    let agent_ids = vec!["agent1", "agent2", "agent3"];
    let mut wirings = Vec::new();
    for agent_id in &agent_ids {
        ctl.add_agent(agent_id.to_string(), None);
        let result = ctl.join_channel("room1", agent_id.to_string());
        assert!(result.is_ok(), "Agent should join successfully");
        wirings.push(result.unwrap());
    }

    // Broadcast a message
    let message = ChannelMessage::Reply(ServerMessage {
        join_ref: None,
        event_ref: "1".to_string(),
        topic: "room1".to_string(),
        event: "broadcast".to_string(),
        payload: ServerPayload::ServerResponse(ServerResponse {
            status: "ok".to_string(),
            response: Response::Message { message: "hello all".to_string() },
        }),
    });

    let result = ctl.broadcast("room1".to_string(), message);
    assert!(result.is_ok(), "Should successfully broadcast");
    assert_eq!(result.unwrap(), 3, "Should have 3 receivers");
}
