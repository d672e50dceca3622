use convex_cluster::ordered::SortedMap;
use convex_cluster::raft_transport::{
    batch_of,
    create_transport,
    decode_raft_message,
    encode_batch,
    encode_raft_message,
    ClientAction,
    ClientEvent,
    ClientPhase,
    RaftTransportClient,
    RaftTransportServer,
};
use protobuf::Message as _;
use raft::prelude::{Message, MessageType};

fn message(index: u64) -> Message {
    let mut msg = Message::default();
    msg.set_msg_type(MessageType::MsgAppend);
    msg.set_to(2);
    msg.set_from(1);
    msg.set_term(5);
    msg.set_log_term(4);
    msg.set_index(index);
    msg
}

#[test]
fn test_encode_decode_roundtrip() {
    let encoded = encode_raft_message(&message(10)).unwrap();
    let decoded = decode_raft_message(&encoded).unwrap();

    assert_eq!(decoded.get_to(), 2);
    assert_eq!(decoded.get_from(), 1);
    assert_eq!(decoded.get_term(), 5);
    assert_eq!(decoded.get_log_term(), 4);
    assert_eq!(decoded.get_index(), 10);
}

#[test]
fn test_create_transport_excludes_self() {
    let mut addresses = SortedMap::new();
    addresses.insert(1, "http://node-a:50051".to_string());
    addresses.insert(2, "http://node-b:50051".to_string());
    addresses.insert(3, "http://node-c:50051".to_string());

    let clients = create_transport(&addresses, 1);

    assert_eq!(clients.len(), 2);
    assert_eq!((clients[0].0, clients[0].1.address()), (2, "http://node-b:50051"));
    assert_eq!((clients[1].0, clients[1].1.address()), (3, "http://node-c:50051"));
}

#[test]
fn garbage_is_no_message() {
    assert_eq!(
        decode_raft_message(&[0xff, 0xff]).unwrap_err(),
        "Failed to decode Raft message"
    );
}

#[test]
fn batches_arrive_whole_and_in_order() {
    let messages = vec![message(1), message(2), message(3)];
    let mut batch = encode_batch(&messages).unwrap();
    let server = RaftTransportServer::new();
    let accepted = server.accept_batch(&batch);
    assert_eq!(accepted, messages);

    batch.insert(1, vec![0xff, 0xff]);
    let accepted = server.accept_batch(&batch);
    assert_eq!(accepted, messages, "what is no message is passed over");

    assert_eq!(server.answer(3, 3), Ok(()));
    assert_eq!(server.answer(0, 0), Ok(()));
    assert_eq!(server.answer(3, 1), Err("Raft node not running".to_string()));
}

#[test]
fn a_batch_needs_every_message() {
    assert_eq!(batch_of(&vec![]), Some(vec![]));
    assert_eq!(batch_of(&vec![Some(vec![1]), Some(vec![])]), Some(vec![vec![1], vec![]]));
    assert_eq!(batch_of(&vec![Some(vec![1]), None]), None);
    assert_eq!(encode_batch(&vec![]), Some(vec![]));
}

#[test]
fn clients_wait_longer_and_longer() {
    let mut client = RaftTransportClient::new("http://node-b:50051".to_string());
    for millis in [1_000, 2_000, 4_000, 8_000, 16_000, 30_000, 30_000] {
        assert_eq!(client.step(ClientEvent::ConnectFailed), ClientAction::Sleep { millis });
        assert_eq!(client.step(ClientEvent::Slept), ClientAction::Connect);
    }
    assert_eq!(client.step(ClientEvent::Connected), ClientAction::Receive);
    assert_eq!(client.step(ClientEvent::MessageReady), ClientAction::Send);
    assert_eq!(client.step(ClientEvent::Sent), ClientAction::Receive);
    assert_eq!(client.step(ClientEvent::MessageReady), ClientAction::Send);
    assert_eq!(client.step(ClientEvent::SendFailed), ClientAction::Connect);
    assert_eq!(
        client.step(ClientEvent::ConnectFailed),
        ClientAction::Sleep { millis: 1_000 },
        "the waits start anew"
    );
    assert_eq!(client.step(ClientEvent::ChannelClosed), ClientAction::Ignore);
    client.step(ClientEvent::Slept);
    client.step(ClientEvent::Connected);
    assert_eq!(client.step(ClientEvent::ChannelClosed), ClientAction::Stop);
    assert_eq!(client.phase(), ClientPhase::Closed);
}

#[test]
fn messages_that_cannot_arrive_read_back_otherwise() {
    let mut odd = Message::default();
    odd.mut_unknown_fields().add_varint(2, 7);
    let decoded = decode_raft_message(&encode_raft_message(&odd).unwrap()).unwrap();
    assert_ne!(decoded, odd);
    assert_eq!(decoded.get_to(), 7);
    let again = decode_raft_message(&encode_raft_message(&decoded).unwrap()).unwrap();
    assert_eq!(again, decoded);

    let mut kept = message(4);
    kept.mut_unknown_fields().add_varint(2_000, 7);
    let encoded = encode_raft_message(&kept).unwrap();
    assert_eq!(decode_raft_message(&encoded).unwrap(), kept);
}
