use cadence::relay::{
    after_send, history_message, on_client_event, on_room_event, ClientEvent, ClientStep, Flow,
    RoomEvent, RoomStep,
    docs_reply, DocsEndpoint, DocsReply, relay_persisted, route_client_message, should_forward, upgrade_decision, ClientAction,
    DocLookup, Upgrade,
};
use cadence::rooms::RoomRegistry;
use cadence::{Envelope, WsMessage};

#[test]
fn only_existing_documents_are_upgraded() {
    assert_eq!(upgrade_decision(DocLookup::Found), Upgrade::Accept);
    assert_eq!(
        upgrade_decision(DocLookup::Missing),
        Upgrade::Reject { status: 404, reason: "document not found" }
    );
    assert_eq!(
        upgrade_decision(DocLookup::Failed),
        Upgrade::Reject { status: 500, reason: "database error" }
    );
}

#[test]
fn edits_are_persisted_cursors_broadcast_history_ignored() {
    let payload: serde_json::Value =
        serde_json::from_str(r#"{"type":"Delete","target":{"site_id":1,"counter":0}}"#).unwrap();
    match route_client_message(7, WsMessage::Op { payload: payload.clone(), site_id: Some(3) }) {
        ClientAction::Persist { payload: p, site_id } => {
            assert_eq!(p, payload);
            assert_eq!(site_id, Some(3));
        }
        other => panic!("unexpected action {other:?}"),
    }
    match route_client_message(7, WsMessage::Cursor { user_id: "u".to_string(), index: 4 }) {
        ClientAction::Broadcast(Envelope { sender, message: WsMessage::Cursor { user_id, index } }) => {
            assert_eq!(sender, 7);
            assert_eq!(user_id, "u");
            assert_eq!(index, 4);
        }
        other => panic!("unexpected action {other:?}"),
    }
    assert!(matches!(
        route_client_message(7, WsMessage::History { ops: vec![] }),
        ClientAction::Ignore
    ));
}

#[test]
fn persisted_edits_are_relayed_failed_ones_are_not() {
    let payload = serde_json::Value::String("op".to_string());
    match relay_persisted(true, 11, payload.clone(), None) {
        Some(Envelope { sender, message: WsMessage::Op { payload: p, site_id } }) => {
            assert_eq!(sender, 11);
            assert_eq!(p, payload);
            assert_eq!(site_id, None);
        }
        other => panic!("unexpected {other:?}"),
    }
    assert!(relay_persisted(false, 11, payload, Some(1)).is_none());
}

#[test]
fn a_connection_never_gets_its_own_messages_back() {
    let env = Envelope { sender: 5, message: WsMessage::Cursor { user_id: "a".to_string(), index: 0 } };
    assert!(!should_forward(&env, 5));
    assert!(should_forward(&env, 6));
}

#[test]
fn joining_an_open_room_shares_its_channel() {
    let mut rooms = RoomRegistry::new();
    let (tx1, mut rx1) = rooms.join(1);
    let (_tx2, mut rx2) = rooms.join(1);
    let (_tx3, mut rx3) = rooms.join(2);
    let env = Envelope { sender: 9, message: WsMessage::Cursor { user_id: "a".to_string(), index: 2 } };
    tx1.send(env).unwrap();
    assert_eq!(rx1.try_recv().unwrap().sender, 9);
    assert_eq!(rx2.try_recv().unwrap().sender, 9);
    assert!(rx3.try_recv().is_err(), "another document's room must not see it");
}

#[test]
fn a_room_is_dropped_only_once_nobody_listens() {
    let mut rooms = RoomRegistry::new();
    let (tx, rx) = rooms.join(1);
    rooms.cleanup_if_empty(1);
    // still subscribed: the same channel is kept
    let (_tx_again, mut rx_again) = rooms.join(1);
    tx.send(Envelope { sender: 1, message: WsMessage::History { ops: vec![] } }).unwrap();
    assert!(rx_again.try_recv().is_ok());
    drop(rx);
    drop(rx_again);
    rooms.cleanup_if_empty(1);
    // the old room is gone: a new join gets a fresh channel that the old sender can't reach
    let (_tx_new, mut rx_new) = rooms.join(1);
    assert!(tx.send(Envelope { sender: 1, message: WsMessage::History { ops: vec![] } }).is_err());
    assert!(rx_new.try_recv().is_err());
    // unknown rooms are left alone
    rooms.cleanup_if_empty(99);
}

#[test]
fn explicit_receiver_counts_decide_removal() {
    let mut rooms = RoomRegistry::new();
    let (tx, _rx) = rooms.join(4);
    rooms.remove_if_unsubscribed(4, 3);
    let (_t, mut r) = rooms.join(4);
    tx.send(Envelope { sender: 2, message: WsMessage::History { ops: vec![] } }).unwrap();
    assert!(r.try_recv().is_ok());
    rooms.remove_if_unsubscribed(4, 0);
    let (_t2, mut r2) = rooms.join(4);
    tx.send(Envelope { sender: 2, message: WsMessage::History { ops: vec![] } }).unwrap();
    assert!(r2.try_recv().is_err());
}

#[test]
fn document_endpoints_answer_with_the_right_status() {
    assert_eq!(docs_reply(DocsEndpoint::Create, true), DocsReply::Success { status: 201 });
    assert_eq!(docs_reply(DocsEndpoint::List, true), DocsReply::Success { status: 200 });
    assert_eq!(
        docs_reply(DocsEndpoint::Create, false),
        DocsReply::Failure { status: 500, reason: "failed to create document" }
    );
    assert_eq!(
        docs_reply(DocsEndpoint::List, false),
        DocsReply::Failure { status: 500, reason: "failed to list documents" }
    );
}

#[test]
fn history_is_the_loaded_log_or_empty() {
    let op = serde_json::Value::String("o".to_string());
    match history_message(Some(vec![op.clone()])) {
        WsMessage::History { ops } => assert_eq!(ops, vec![op]),
        other => panic!("unexpected {other:?}"),
    }
    match history_message(None) {
        WsMessage::History { ops } => assert!(ops.is_empty()),
        other => panic!("unexpected {other:?}"),
    }
    assert_eq!(after_send(true), Flow::Continue);
    assert_eq!(after_send(false), Flow::Stop);
}

#[test]
fn room_events_are_forwarded_skipped_or_stop() {
    let own = Envelope { sender: 3, message: WsMessage::Cursor { user_id: "a".to_string(), index: 1 } };
    assert!(matches!(on_room_event(3, RoomEvent::Received(own.clone())), RoomStep::Skip));
    match on_room_event(4, RoomEvent::Received(own)) {
        RoomStep::Forward(WsMessage::Cursor { index, .. }) => assert_eq!(index, 1),
        other => panic!("unexpected {other:?}"),
    }
    assert!(matches!(on_room_event(4, RoomEvent::Failed), RoomStep::Stop));
}

#[test]
fn client_events_are_routed_ignored_or_stop() {
    match on_client_event(8, ClientEvent::Message(WsMessage::History { ops: vec![] })) {
        ClientStep::Act(ClientAction::Ignore) => {}
        other => panic!("unexpected {other:?}"),
    }
    match on_client_event(8, ClientEvent::Message(WsMessage::Cursor { user_id: "u".to_string(), index: 0 })) {
        ClientStep::Act(ClientAction::Broadcast(env)) => assert_eq!(env.sender, 8),
        other => panic!("unexpected {other:?}"),
    }
    assert!(matches!(on_client_event(8, ClientEvent::Malformed), ClientStep::Continue));
    assert!(matches!(on_client_event(8, ClientEvent::Other), ClientStep::Continue));
    assert!(matches!(on_client_event(8, ClientEvent::Close), ClientStep::Stop));
    assert!(matches!(on_client_event(8, ClientEvent::Ended), ClientStep::Stop));
}

#[test]
fn a_new_room_buffers_256_messages() {
    let mut rooms = RoomRegistry::new();
    let (tx, mut rx) = rooms.join(1);
    for i in 0..256u128 {
        tx.send(Envelope { sender: i, message: WsMessage::History { ops: vec![] } }).unwrap();
    }
    assert_eq!(rx.try_recv().unwrap().sender, 0);
    let (tx2, mut rx2) = rooms.join(2);
    for i in 0..257u128 {
        tx2.send(Envelope { sender: i, message: WsMessage::History { ops: vec![] } }).unwrap();
    }
    assert!(rx2.try_recv().is_err(), "the 257th message pushes the first out of the buffer");
}
