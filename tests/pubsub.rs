use saorsa_gossip::message_id::{calculate_msg_id, message_id_preimage};
use saorsa_gossip::pubsub::PlumtreePubSub;
use saorsa_gossip::topic::{GossipMessage, PubSubAction, PubSubError, TopicState, MAX_IHAVE_BATCH_SIZE, MIN_EAGER_DEGREE};
use saorsa_gossip::types::{MessageHeader, MessageId, MessageKind, PeerId, TopicId};

fn test_peer_id(id: u8) -> PeerId {
    let mut bytes = [0u8; 32];
    bytes[0] = id;
    PeerId::new(bytes)
}

const T0: u64 = 1_700_000_000_000;

fn deliveries(acts: &[PubSubAction]) -> Vec<(PeerId, Vec<u8>)> {
    acts.iter()
        .filter_map(|a| match a {
            PubSubAction::Deliver { from, payload, .. } => Some((*from, payload.clone())),
            _ => None,
        })
        .collect()
}

fn eagers_to(acts: &[PubSubAction], to: PeerId) -> Vec<GossipMessage> {
    acts.iter()
        .filter_map(|a| match a {
            PubSubAction::SendEager { to: t, header, payload } if *t == to => Some(GossipMessage {
                header: *header,
                payload: Some(payload.clone()),
                signature: Vec::new(),
            }),
            _ => None,
        })
        .collect()
}

fn prunes(acts: &[PubSubAction]) -> Vec<(PeerId, MessageId)> {
    acts.iter()
        .filter_map(|a| match a {
            PubSubAction::SendPrune { to, msg_id, .. } => Some((*to, *msg_id)),
            _ => None,
        })
        .collect()
}

fn eager_of(ps: &PlumtreePubSub, topic: &TopicId) -> Vec<PeerId> {
    ps.topic(topic).map(|s| s.eager_peers()).unwrap_or_default()
}

fn lazy_of(ps: &PlumtreePubSub, topic: &TopicId) -> Vec<PeerId> {
    ps.topic(topic).map(|s| s.lazy_peers()).unwrap_or_default()
}

#[test]
fn test_pubsub_creation() {
    let peer_id = test_peer_id(1);
    let pubsub = PlumtreePubSub::new(peer_id);
    assert_eq!(pubsub.peer_id(), peer_id);
    assert!(pubsub.topic_ids().is_empty());
}

#[test]
fn test_publish_and_subscribe() {
    let peer_id = test_peer_id(1);
    let mut pubsub = PlumtreePubSub::new(peer_id);
    let topic = TopicId::new([1u8; 32]);

    pubsub.subscribe(topic);
    let data = b"test message".to_vec();
    let acts = pubsub.publish_local(topic, data.clone(), T0);

    assert_eq!(deliveries(&acts), vec![(peer_id, data)]);
}

#[test]
fn test_message_caching() {
    let peer_id = test_peer_id(1);
    let mut pubsub = PlumtreePubSub::new(peer_id);
    let topic = TopicId::new([1u8; 32]);

    let payload = b"test".to_vec();
    let msg_id = calculate_msg_id(&topic, T0 / 1000, &peer_id, &payload);

    pubsub.publish_local(topic, payload, T0);

    let state = pubsub.topic(&topic).unwrap();
    assert!(state.has_message(&msg_id));
    assert_eq!(state.pending_ihave(), vec![msg_id]);
}

fn eager_message(topic: TopicId, msg_id: MessageId, payload: &[u8]) -> GossipMessage {
    GossipMessage {
        header: MessageHeader { version: 1, topic, msg_id, kind: MessageKind::Eager, hop: 0, ttl: 10 },
        payload: Some(payload.to_vec()),
        signature: Vec::new(),
    }
}

#[test]
fn test_duplicate_detection_prune() {
    let peer_id = test_peer_id(1);
    let mut pubsub = PlumtreePubSub::new(peer_id);
    let topic = TopicId::new([1u8; 32]);
    let from_peer = test_peer_id(2);

    // Initialize peer as eager
    pubsub.initialize_topic_peers(topic, &vec![from_peer]);

    let payload = b"test".to_vec();
    let msg_id = calculate_msg_id(&topic, T0 / 1000, &peer_id, &payload);
    let message = eager_message(topic, msg_id, &payload);

    // First EAGER - should be accepted
    pubsub.handle_eager(from_peer, topic, message.clone(), true, T0).unwrap();

    // Second EAGER - should trigger PRUNE
    pubsub.handle_eager(from_peer, topic, message, true, T0).unwrap();

    // Verify peer was moved to lazy
    assert!(!eager_of(&pubsub, &topic).contains(&from_peer));
    assert!(lazy_of(&pubsub, &topic).contains(&from_peer));
}

#[test]
fn test_ihave_handling() {
    let peer_id = test_peer_id(1);
    let mut pubsub = PlumtreePubSub::new(peer_id);
    let topic = TopicId::new([1u8; 32]);
    let from_peer = test_peer_id(2);

    let unknown_msg_id = [42u8; 32];

    let acts = pubsub.handle_ihave(from_peer, topic, &vec![unknown_msg_id], T0);

    // Verify IWANT was tracked
    let state = pubsub.topic(&topic).unwrap();
    assert!(state.is_requested(&unknown_msg_id));
    assert_eq!(acts.len(), 1);
    match &acts[0] {
        PubSubAction::SendIWant { to, msg_ids, .. } => {
            assert_eq!(*to, from_peer);
            assert_eq!(msg_ids, &vec![unknown_msg_id]);
        }
        other => panic!("unexpected {:?}", other),
    }
}

#[test]
fn test_iwant_graft() {
    let peer_id = test_peer_id(1);
    let mut pubsub = PlumtreePubSub::new(peer_id);
    let topic = TopicId::new([1u8; 32]);
    let from_peer = test_peer_id(2);

    // Initialize peer as lazy
    pubsub.initialize_topic_peers(topic, &vec![from_peer]);
    pubsub.handle_prune(from_peer, topic);
    assert!(lazy_of(&pubsub, &topic).contains(&from_peer));

    // Publish a message to cache it
    let payload = b"test".to_vec();
    pubsub.publish_local(topic, payload.clone(), T0);

    let msg_id = calculate_msg_id(&topic, T0 / 1000, &peer_id, &payload);

    // Handle IWANT from lazy peer
    let acts = pubsub.handle_iwant(from_peer, topic, &vec![msg_id]);
    assert_eq!(eagers_to(&acts, from_peer).len(), 1);

    // Verify peer was grafted to eager
    assert!(eager_of(&pubsub, &topic).contains(&from_peer));
    assert!(!lazy_of(&pubsub, &topic).contains(&from_peer));
}

#[test]
fn lib_test_degree_maintenance() {
    let topic = TopicId::new([1u8; 32]);
    let mut state = TopicState::new(topic);

    // Add many peers, all lazy
    let peers: Vec<PeerId> = (2..20).map(test_peer_id).collect();
    state.initialize_peers(&peers);
    for p in &peers {
        state.prune_peer(*p);
    }
    assert!(state.eager_peers().is_empty());

    // Maintain degree (should promote to reach MIN_EAGER_DEGREE)
    state.maintain_degree();

    assert!(state.eager_peers().len() >= MIN_EAGER_DEGREE);
    assert_eq!(state.eager_peers().len() + state.lazy_peers().len(), 18);
}

#[test]
fn eager_degree_is_pruned_to_twelve() {
    let topic = TopicId::new([1u8; 32]);
    let mut state = TopicState::new(topic);
    let peers: Vec<PeerId> = (2..22).map(test_peer_id).collect();
    state.initialize_peers(&peers);
    state.maintain_degree();
    assert_eq!(state.eager_peers().len(), 12);
    assert_eq!(state.lazy_peers().len(), 8);
}

#[test]
fn test_cache_expiration() {
    let peer_id = test_peer_id(1);
    let mut pubsub = PlumtreePubSub::new(peer_id);
    let topic = TopicId::new([1u8; 32]);

    pubsub.publish_local(topic, b"test".to_vec(), T0);

    // The entry is older than the TTL at the next cleaning
    pubsub.clean_cache(topic, T0 + 310_000);

    assert_eq!(pubsub.topic(&topic).unwrap().cached_count(), 0);
}

// Two peers, one message.
#[test]
fn two_peers_one_message() {
    let a_id = PeerId::new([0x01; 32]);
    let b_id = PeerId::new([0x02; 32]);
    let topic = TopicId::new([0x42; 32]);
    let mut a = PlumtreePubSub::new(a_id);
    let mut b = PlumtreePubSub::new(b_id);
    a.initialize_topic_peers(topic, &vec![b_id]);
    b.initialize_topic_peers(topic, &vec![a_id]);
    b.subscribe(topic);

    let acts = a.publish_local(topic, b"hello".to_vec(), T0);
    let to_b = eagers_to(&acts, b_id);
    assert_eq!(to_b.len(), 1);
    let got = b.handle_eager(a_id, topic, to_b[0].clone(), true, T0 + 5).unwrap();

    assert_eq!(deliveries(&got), vec![(a_id, b"hello".to_vec())]);
    assert!(prunes(&got).is_empty());
    assert!(prunes(&acts).is_empty());
    assert!(eager_of(&b, &topic).contains(&a_id));
    assert!(eager_of(&a, &topic).contains(&b_id));
}

// Duplicate triggers PRUNE.
#[test]
fn duplicate_triggers_prune() {
    let a_id = PeerId::new([0x01; 32]);
    let b_id = PeerId::new([0x02; 32]);
    let topic = TopicId::new([0x42; 32]);
    let mut a = PlumtreePubSub::new(a_id);
    let mut b = PlumtreePubSub::new(b_id);
    a.initialize_topic_peers(topic, &vec![b_id]);
    b.initialize_topic_peers(topic, &vec![a_id]);

    let acts = a.publish_local(topic, b"hello".to_vec(), T0);
    let msg = eagers_to(&acts, b_id)[0].clone();
    let first = b.handle_eager(a_id, topic, msg.clone(), true, T0).unwrap();
    let second = b.handle_eager(a_id, topic, msg.clone(), true, T0 + 1).unwrap();

    assert_eq!(deliveries(&first).len(), 1);
    assert!(deliveries(&second).is_empty());
    assert_eq!(prunes(&second), vec![(a_id, msg.header.msg_id)]);
    assert_eq!(second.len(), 1);
    assert!(lazy_of(&b, &topic).contains(&a_id));
    assert!(!eager_of(&b, &topic).contains(&a_id));

    // A receives the PRUNE and demotes B as well.
    a.handle_prune(b_id, topic);
    assert!(lazy_of(&a, &topic).contains(&b_id));
}

// Lazy recovery via IWANT.
#[test]
fn lazy_recovery_via_iwant() {
    let a_id = test_peer_id(0xA);
    let b_id = test_peer_id(0xB);
    let c_id = test_peer_id(0xC);
    let topic = TopicId::new([0x42; 32]);
    let mut a = PlumtreePubSub::new(a_id);
    let mut c = PlumtreePubSub::new(c_id);
    a.initialize_topic_peers(topic, &vec![b_id, c_id]);
    a.handle_prune(c_id, topic);
    c.initialize_topic_peers(topic, &vec![a_id]);
    c.handle_prune(a_id, topic);

    let acts = a.publish_local(topic, b"x".to_vec(), T0);
    assert_eq!(eagers_to(&acts, b_id).len(), 1);
    assert!(eagers_to(&acts, c_id).is_empty());

    let flush = a.flush_ihave(topic);
    let ids = match &flush[..] {
        [PubSubAction::SendIHave { to, msg_ids, .. }] if *to == c_id => msg_ids.clone(),
        other => panic!("unexpected {:?}", other),
    };
    let iwant = c.handle_ihave(a_id, topic, &ids, T0 + 100);
    let wanted = match &iwant[..] {
        [PubSubAction::SendIWant { to, msg_ids, .. }] if *to == a_id => msg_ids.clone(),
        other => panic!("unexpected {:?}", other),
    };
    assert_eq!(wanted, ids);
    let reply = a.handle_iwant(c_id, topic, &wanted);
    let msgs = eagers_to(&reply, c_id);
    assert_eq!(msgs.len(), 1);
    let got = c.handle_eager(a_id, topic, msgs[0].clone(), true, T0 + 200).unwrap();
    assert_eq!(deliveries(&got), vec![(a_id, b"x".to_vec())]);
    assert!(eager_of(&c, &topic).contains(&a_id));
    assert!(eager_of(&a, &topic).contains(&c_id));

    // A later IHAVE of the same id requests nothing.
    assert!(c.handle_ihave(a_id, topic, &ids, T0 + 300).is_empty());

    // A second copy is not delivered again.
    let again = c.handle_eager(a_id, topic, msgs[0].clone(), true, T0 + 400).unwrap();
    assert!(deliveries(&again).is_empty());
}

// Cache expiry.
#[test]
fn cache_expiry_then_iwant_answers_nothing() {
    let a_id = test_peer_id(1);
    let c_id = test_peer_id(3);
    let topic = TopicId::new([0x42; 32]);
    let mut a = PlumtreePubSub::new(a_id);
    a.publish_local(topic, b"m".to_vec(), T0);
    let id = calculate_msg_id(&topic, T0 / 1000, &a_id, b"m");
    a.clean_cache(topic, T0 + 300_000);
    assert!(a.topic(&topic).unwrap().has_message(&id));
    a.clean_cache(topic, T0 + 301_000);
    assert!(!a.topic(&topic).unwrap().has_message(&id));
    assert!(a.handle_iwant(c_id, topic, &vec![id]).is_empty());
}

#[test]
fn invalid_signature_is_rejected_without_change() {
    let mut b = PlumtreePubSub::new(test_peer_id(2));
    let topic = TopicId::new([0x42; 32]);
    let msg = eager_message(topic, [7u8; 32], b"p");
    let r = b.handle_eager(test_peer_id(1), topic, msg.clone(), false, T0);
    assert_eq!(r.unwrap_err(), PubSubError::InvalidSignature);
    assert_eq!(b.topic(&topic).unwrap().cached_count(), 0);
    let mut no_payload = msg;
    no_payload.payload = None;
    let r = b.handle_eager(test_peer_id(1), topic, no_payload, true, T0);
    assert_eq!(r.unwrap_err(), PubSubError::MissingPayload);
}

#[test]
fn forwarding_increments_hop_and_stops_at_ttl() {
    let topic = TopicId::new([0x42; 32]);
    let mut b = PlumtreePubSub::new(test_peer_id(2));
    b.initialize_topic_peers(topic, &vec![test_peer_id(1), test_peer_id(3), test_peer_id(4)]);
    let mut msg = eager_message(topic, [7u8; 32], b"p");
    msg.header.hop = 4;
    let acts = b.handle_eager(test_peer_id(1), topic, msg, true, T0).unwrap();
    assert!(eagers_to(&acts, test_peer_id(1)).is_empty());
    let fwd = eagers_to(&acts, test_peer_id(3));
    assert_eq!(fwd.len(), 1);
    assert_eq!(fwd[0].header.hop, 5);
    assert_eq!(eagers_to(&acts, test_peer_id(4)).len(), 1);
    assert_eq!(deliveries(&acts).len(), 1);

    let mut last = eager_message(topic, [8u8; 32], b"q");
    last.header.hop = 10;
    let acts = b.handle_eager(test_peer_id(1), topic, last, true, T0).unwrap();
    assert_eq!(deliveries(&acts).len(), 1);
    assert_eq!(acts.len(), 1);
}

#[test]
fn ihave_batches_are_capped() {
    let topic = TopicId::new([0x42; 32]);
    let mut a = PlumtreePubSub::new(test_peer_id(1));
    a.initialize_topic_peers(topic, &vec![test_peer_id(2)]);
    a.handle_prune(test_peer_id(2), topic);
    for i in 0..1500u32 {
        a.publish_local(topic, i.to_le_bytes().to_vec(), T0);
    }
    let first = a.flush_ihave(topic);
    match &first[..] {
        [PubSubAction::SendIHave { msg_ids, .. }] => assert_eq!(msg_ids.len(), MAX_IHAVE_BATCH_SIZE),
        other => panic!("unexpected {:?}", other),
    }
    let second = a.flush_ihave(topic);
    match &second[..] {
        [PubSubAction::SendIHave { msg_ids, .. }] => assert_eq!(msg_ids.len(), 476),
        other => panic!("unexpected {:?}", other),
    }
    assert!(a.flush_ihave(topic).is_empty());
}

#[test]
fn iwant_is_retried_to_another_advertiser() {
    let topic = TopicId::new([0x42; 32]);
    let mut c = PlumtreePubSub::new(test_peer_id(3));
    let id = [9u8; 32];
    let first = c.handle_ihave(test_peer_id(1), topic, &vec![id], 0);
    assert_eq!(first.len(), 1);
    // A second advertiser does not trigger a second request...
    assert!(c.handle_ihave(test_peer_id(2), topic, &vec![id], 500).is_empty());
    // ...until the first one times out.
    assert!(c.retry_iwants(topic, 2_000).is_empty());
    let retry = c.retry_iwants(topic, 2_001);
    match &retry[..] {
        [PubSubAction::SendIWant { to, msg_ids, .. }] => {
            assert_eq!(*to, test_peer_id(2));
            assert_eq!(msg_ids, &vec![id]);
        }
        other => panic!("unexpected {:?}", other),
    }
    assert!(c.topic(&topic).unwrap().is_requested(&id));
    // No other advertiser: the request is given up.
    assert!(c.retry_iwants(topic, 4_002).is_empty());
    assert!(!c.topic(&topic).unwrap().is_requested(&id));
}

#[test]
fn retry_budget_is_three() {
    let topic = TopicId::new([0x42; 32]);
    let mut c = PlumtreePubSub::new(test_peer_id(9));
    let id = [9u8; 32];
    c.handle_ihave(test_peer_id(1), topic, &vec![id], 0);
    let mut now = 0u64;
    for round in 0..3u8 {
        let other = test_peer_id(10 + round);
        c.handle_ihave(other, topic, &vec![id], now);
        now += 2_001;
        assert_eq!(c.retry_iwants(topic, now).len(), 1);
    }
    c.handle_ihave(test_peer_id(20), topic, &vec![id], now);
    now += 2_001;
    assert!(c.retry_iwants(topic, now).is_empty());
    assert!(!c.topic(&topic).unwrap().is_requested(&id));
}

#[test]
fn removed_peer_leaves_every_topic() {
    let mut a = PlumtreePubSub::new(test_peer_id(1));
    let t1 = TopicId::new([1; 32]);
    let t2 = TopicId::new([2; 32]);
    a.initialize_topic_peers(t1, &vec![test_peer_id(2), test_peer_id(3)]);
    a.initialize_topic_peers(t2, &vec![test_peer_id(2)]);
    a.handle_prune(test_peer_id(2), t2);
    a.remove_peer(&test_peer_id(2));
    assert_eq!(eager_of(&a, &t1), vec![test_peer_id(3)]);
    assert!(lazy_of(&a, &t2).is_empty());
    assert!(eager_of(&a, &t2).is_empty());
    a.unsubscribe(t1);
    assert!(a.topic(&t1).is_none());
    assert_eq!(a.topic_ids(), vec![t2]);
}

#[test]
fn eager_and_lazy_stay_disjoint() {
    let topic = TopicId::new([1; 32]);
    let mut s = TopicState::new(topic);
    let peers: Vec<PeerId> = (1..10).map(test_peer_id).collect();
    s.initialize_peers(&peers);
    for p in peers.iter().take(4) {
        s.prune_peer(*p);
    }
    s.graft_peer(peers[0]);
    s.initialize_peers(&vec![peers[1]]);
    for p in s.eager_peers() {
        assert!(!s.lazy_peers().contains(&p));
    }
    assert_eq!(s.eager_peers().len() + s.lazy_peers().len(), 9);
    assert_eq!(s.topic_id(), topic);
}

#[test]
fn message_id_is_deterministic_and_hashes_its_parts() {
    let topic = TopicId::new([0x42; 32]);
    let origin = test_peer_id(1);
    let a = calculate_msg_id(&topic, 1234, &origin, b"hello");
    let b = calculate_msg_id(&topic, 1234, &origin, b"hello");
    assert_eq!(a, b);
    assert_ne!(a, calculate_msg_id(&topic, 1235, &origin, b"hello"));
    assert_ne!(a, calculate_msg_id(&topic, 1234, &test_peer_id(2), b"hello"));
    let payload_hash = *blake3::hash(b"hello").as_bytes();
    let pre = message_id_preimage(&topic, 1234, &origin, &payload_hash);
    assert_eq!(pre.len(), 104);
    assert_eq!(&pre[..32], &[0x42; 32]);
    assert_eq!(&pre[32..40], &1234u64.to_le_bytes());
    assert_eq!(&pre[40..72], origin.as_bytes());
    assert_eq!(&pre[72..], &payload_hash);
    assert_eq!(a, *blake3::hash(&pre).as_bytes());
}

#[test]
fn send_failure_drops_eager_peer_and_retries_on_lazy() {
    let topic = TopicId::new([0x42; 32]);
    let mut a = PlumtreePubSub::new(test_peer_id(1));
    a.initialize_topic_peers(topic, &vec![test_peer_id(2), test_peer_id(3), test_peer_id(4)]);
    a.handle_prune(test_peer_id(4), topic);
    let msg = eager_message(topic, [5u8; 32], b"z");
    let acts = a.handle_send_failure(topic, test_peer_id(2), msg.header, b"z".to_vec());
    assert_eq!(eagers_to(&acts, test_peer_id(4)).len(), 1);
    assert_eq!(acts.len(), 1);
    assert_eq!(eager_of(&a, &topic), vec![test_peer_id(3)]);
    assert_eq!(lazy_of(&a, &topic), vec![test_peer_id(4)]);
}

#[test]
fn republishing_in_the_same_second_is_a_duplicate() {
    let topic = TopicId::new([0x42; 32]);
    let a_id = test_peer_id(1);
    let mut a = PlumtreePubSub::new(a_id);
    a.initialize_topic_peers(topic, &vec![test_peer_id(2)]);
    let first = a.publish_local(topic, b"same".to_vec(), T0);
    assert_eq!(deliveries(&first).len(), 1);
    assert_eq!(eagers_to(&first, test_peer_id(2)).len(), 1);
    let again = a.publish_local(topic, b"same".to_vec(), T0 + 999);
    assert!(again.is_empty());
    assert_eq!(a.topic(&topic).unwrap().pending_ihave().len(), 1);
    // A later second gives a new id, published as a new message.
    let later = a.publish_local(topic, b"same".to_vec(), T0 + 1_000);
    assert_eq!(deliveries(&later).len(), 1);
    assert_eq!(a.topic(&topic).unwrap().cached_count(), 2);
}
