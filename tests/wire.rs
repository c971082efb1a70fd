use saorsa_gossip::topic::GossipMessage;
use saorsa_gossip::types::{MessageHeader, MessageKind, StreamType, TopicId};
use saorsa_gossip::wire::{decode_id_list, decode_message, encode_id_list, encode_message, frame, unframe, HEADER_LEN};

fn header(kind: MessageKind) -> MessageHeader {
    MessageHeader { version: 1, topic: TopicId::new([0x42; 32]), msg_id: [7u8; 32], kind, hop: 3, ttl: 10 }
}

#[test]
fn envelope_layout_is_exact() {
    let m = GossipMessage { header: header(MessageKind::Eager), payload: Some(b"hi".to_vec()), signature: vec![9, 9] };
    let bytes = encode_message(&m);
    assert_eq!(bytes.len(), HEADER_LEN + 1 + 8 + 2 + 8 + 2);
    assert_eq!(bytes[0], 1);
    assert_eq!(&bytes[1..33], &[0x42; 32]);
    assert_eq!(&bytes[33..65], &[7u8; 32]);
    assert_eq!(bytes[65], 0);
    assert_eq!(bytes[66], 3);
    assert_eq!(bytes[67], 10);
    assert_eq!(bytes[68], 1);
    assert_eq!(&bytes[69..77], &2u64.to_le_bytes());
    assert_eq!(&bytes[77..79], b"hi");
    assert_eq!(&bytes[79..87], &2u64.to_le_bytes());
    assert_eq!(&bytes[87..], &[9, 9]);
}

#[test]
fn envelope_round_trip() {
    for payload in [None, Some(Vec::new()), Some(vec![1, 2, 3])] {
        let m = GossipMessage { header: header(MessageKind::IWant), payload: payload.clone(), signature: vec![4; 5] };
        let back = decode_message(&encode_message(&m)).expect("decodes");
        assert_eq!(back.header.kind, MessageKind::IWant);
        assert_eq!(back.header.topic, m.header.topic);
        assert_eq!(back.header.msg_id, m.header.msg_id);
        assert_eq!((back.header.version, back.header.hop, back.header.ttl), (1, 3, 10));
        assert_eq!(back.payload, payload);
        assert_eq!(back.signature, vec![4; 5]);
    }
}

#[test]
fn malformed_envelopes_are_rejected() {
    let m = GossipMessage { header: header(MessageKind::Prune), payload: None, signature: vec![] };
    let good = encode_message(&m);
    assert!(decode_message(&good).is_some());
    assert!(decode_message(&good[..good.len() - 1]).is_none());
    let mut longer = good.clone();
    longer.push(0);
    assert!(decode_message(&longer).is_none());
    let mut bad_kind = good.clone();
    bad_kind[65] = 200;
    assert!(decode_message(&bad_kind).is_none());
    let mut bad_tag = good.clone();
    bad_tag[68] = 2;
    assert!(decode_message(&bad_tag).is_none());
    assert!(decode_message(&[]).is_none());
}

#[test]
fn frames_carry_the_stream_byte() {
    let body = vec![5u8, 6];
    assert_eq!(frame(StreamType::Membership, &body), vec![0, 5, 6]);
    assert_eq!(frame(StreamType::PubSub, &body), vec![1, 5, 6]);
    assert_eq!(frame(StreamType::Bulk, &body), vec![2, 5, 6]);
    let (s, b) = unframe(&[1, 5, 6]).expect("a frame");
    assert_eq!(s, StreamType::PubSub);
    assert_eq!(b, body);
    assert!(unframe(&[3, 5]).is_none());
    assert!(unframe(&[]).is_none());
}

#[test]
fn id_lists_round_trip() {
    let ids = vec![[1u8; 32], [2u8; 32]];
    let bytes = encode_id_list(&ids);
    assert_eq!(bytes.len(), 8 + 64);
    assert_eq!(&bytes[..8], &2u64.to_le_bytes());
    assert_eq!(decode_id_list(&bytes), Some(ids));
    assert_eq!(decode_id_list(&encode_id_list(&Vec::new())), Some(Vec::new()));
    assert!(decode_id_list(&bytes[..40]).is_none());
    let mut wrong_count = bytes.clone();
    wrong_count[0] = 3;
    assert!(decode_id_list(&wrong_count).is_none());
}

#[test]
fn kind_bytes_round_trip() {
    for b in 0..=11u8 {
        assert_eq!(MessageKind::from_byte(b).unwrap().to_byte(), b);
    }
    assert!(MessageKind::from_byte(12).is_none());
    assert_eq!(StreamType::from_byte(2), Some(StreamType::Bulk));
    assert!(StreamType::from_byte(3).is_none());
}
