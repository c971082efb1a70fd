use saorsa_gossip::membership::{HyParViewMembership, DEFAULT_ACTIVE_DEGREE, DEFAULT_PASSIVE_DEGREE};
use saorsa_gossip::swim::{PeerState, SwimDetector};
use saorsa_gossip::types::PeerId;

fn test_membership() -> HyParViewMembership {
    HyParViewMembership::new(DEFAULT_ACTIVE_DEGREE, DEFAULT_PASSIVE_DEGREE)
}

fn peer(b: u8) -> PeerId {
    let mut bytes = [0u8; 32];
    bytes[0] = b;
    PeerId::new(bytes)
}

#[test]
fn test_hyparview_creation() {
    let membership = test_membership();
    assert_eq!(membership.active_view().len(), 0);
    assert_eq!(membership.passive_view().len(), 0);
}

#[test]
fn test_add_active_peer() {
    let mut membership = test_membership();
    let peer = PeerId::new([1u8; 32]);

    membership.add_active(peer, 0);
    let active = membership.active_view();
    assert_eq!(active.len(), 1);
    assert!(active.contains(&peer));
    assert_eq!(membership.swim().get_state(&peer), Some(PeerState::Alive));
}

#[test]
fn test_remove_active_peer() {
    let mut membership = test_membership();
    let peer = PeerId::new([1u8; 32]);

    membership.add_active(peer, 0);
    assert!(membership.remove_active(peer, 5));

    let active = membership.active_view();
    assert_eq!(active.len(), 0);
    assert_eq!(membership.swim().get_state(&peer), Some(PeerState::Dead));
    assert!(!membership.remove_active(peer, 6));
}

#[test]
fn test_active_view_capacity() {
    let mut membership = HyParViewMembership::new(3, 10);

    // Add 5 peers (more than capacity)
    for i in 0..5 {
        let peer = PeerId::new([i; 32]);
        membership.add_active(peer, 0);
    }

    // Should only have 3 in active (capacity limit)
    let active = membership.active_view();
    assert_eq!(active.len(), 3);

    // Others should be in passive
    let passive = membership.passive_view();
    assert_eq!(passive.len(), 2);
}

#[test]
fn test_swim_states() {
    let mut swim = SwimDetector::new(1, 3);
    let peer = PeerId::new([1u8; 32]);

    swim.mark_alive(peer, 0);
    assert_eq!(swim.get_state(&peer), Some(PeerState::Alive));

    swim.mark_suspect(peer, 10);
    assert_eq!(swim.get_state(&peer), Some(PeerState::Suspect));

    swim.mark_dead(peer, 20);
    assert_eq!(swim.get_state(&peer), Some(PeerState::Dead));
}

#[test]
fn test_swim_suspect_timeout() {
    let mut swim = SwimDetector::new(1, 1); // 1s timeout
    let peer = PeerId::new([1u8; 32]);

    swim.mark_alive(peer, 0);
    swim.mark_suspect(peer, 0);

    // Two seconds later the suspect has timed out
    let dead = swim.expire_suspects(2_000);

    assert_eq!(swim.get_state(&peer), Some(PeerState::Dead));
    assert_eq!(dead, vec![peer]);
}

#[test]
fn test_promote_from_passive() {
    let mut membership = test_membership();
    let peer = PeerId::new([1u8; 32]);

    // Add to passive
    membership.merge_passive(&vec![peer]);

    // Promote to active
    assert!(membership.promote(peer, 0));

    let active = membership.active_view();
    let passive = membership.passive_view();

    assert!(active.contains(&peer));
    assert!(!passive.contains(&peer));
}

#[test]
fn test_degree_maintenance() {
    let mut membership = HyParViewMembership::new(5, 20);

    // Add many peers to passive
    let peers: Vec<PeerId> = (0..15).map(|i| PeerId::new([i; 32])).collect();
    membership.merge_passive(&peers);

    // Run maintenance
    membership.maintain_degrees();

    // Should have promoted some to active
    let active = membership.active_view();
    assert!(active.len() >= 5);
    assert!(active.len() <= 12);
}

#[test]
fn test_get_peers_in_state() {
    let mut swim = SwimDetector::new(1, 100);

    let peer1 = PeerId::new([1u8; 32]);
    let peer2 = PeerId::new([2u8; 32]);
    let peer3 = PeerId::new([3u8; 32]);

    swim.mark_alive(peer1, 0);
    swim.mark_alive(peer2, 0); // Start as alive
    swim.mark_suspect(peer2, 0); // Then mark suspect
    swim.mark_dead(peer3, 0);

    let alive = swim.get_peers_in_state(PeerState::Alive);
    let suspects = swim.get_peers_in_state(PeerState::Suspect);
    let dead = swim.get_peers_in_state(PeerState::Dead);

    assert_eq!(alive.len(), 1);
    assert_eq!(suspects.len(), 1);
    assert_eq!(dead.len(), 1);

    assert!(alive.contains(&peer1));
    assert!(suspects.contains(&peer2));
    assert!(dead.contains(&peer3));
}

#[test]
fn suspect_only_from_alive_and_unknown_state() {
    let mut swim = SwimDetector::new(1, 3);
    let p = peer(9);
    assert_eq!(swim.get_state(&p), None);
    swim.mark_suspect(p, 0);
    assert_eq!(swim.get_state(&p), None);
    swim.mark_dead(p, 0);
    swim.mark_suspect(p, 1);
    assert_eq!(swim.get_state(&p), Some(PeerState::Dead));
    swim.remove_peer(&p);
    assert_eq!(swim.get_state(&p), None);
    assert_eq!(swim.probe_period(), 1);
    assert_eq!(swim.suspect_timeout(), 3);
}

#[test]
fn suspect_timeout_is_strict() {
    let mut swim = SwimDetector::new(1, 3);
    let p = peer(1);
    swim.mark_alive(p, 1_000);
    swim.mark_suspect(p, 1_000);
    assert!(swim.expire_suspects(4_000).is_empty());
    assert_eq!(swim.get_state(&p), Some(PeerState::Suspect));
    assert_eq!(swim.expire_suspects(4_001), vec![p]);
}

#[test]
fn probe_target_is_drawn_among_alive_peers() {
    let mut swim = SwimDetector::new(1, 3);
    assert_eq!(swim.probe_target_at(7), None);
    swim.mark_dead(peer(1), 0);
    assert_eq!(swim.probe_target_at(7), None);
    swim.mark_alive(peer(2), 0);
    swim.mark_alive(peer(3), 0);
    swim.mark_alive(peer(4), 0);
    assert_eq!(swim.probe_target_at(0), Some(peer(2)));
    assert_eq!(swim.probe_target_at(4), Some(peer(3)));
    assert_eq!(swim.probe_target_at(8), Some(peer(4)));
}

#[test]
fn probe_tick_suspects_the_unanswered_peer() {
    let mut m = test_membership();
    m.add_active(peer(1), 0);
    m.add_active(peer(2), 0);
    let first = m.probe_tick(None, 0, 10);
    assert_eq!(first, Some(peer(1)));
    let next = m.probe_tick(first, 0, 1_010);
    assert_eq!(m.swim().get_state(&peer(1)), Some(PeerState::Suspect));
    assert_eq!(next, Some(peer(2)));
    assert_eq!(m.expire_suspects(4_011), vec![peer(1)]);
    assert_eq!(m.swim().get_state(&peer(1)), Some(PeerState::Dead));
    assert!(m.active_view().contains(&peer(1)));
}

#[test]
fn maintenance_skips_dead_passive_peers() {
    let mut m = test_membership();
    m.merge_passive(&vec![peer(1), peer(2)]);
    m.add_active(peer(1), 0);
    m.remove_active(peer(1), 1);
    m.merge_passive(&vec![peer(1)]);
    assert_eq!(m.passive_view(), vec![peer(2), peer(1)]);
    m.maintain_degrees();
    assert_eq!(m.active_view(), vec![peer(2)]);
    assert_eq!(m.passive_view(), vec![peer(1)]);
}

// Failure detector promotes: a dead active peer is replaced from the passive view.
#[test]
fn failure_detector_promotes() {
    let mut m = test_membership();
    for b in 2..8 {
        m.add_active(peer(b), 0);
    }
    let h = peer(8);
    m.merge_passive(&vec![h]);
    assert_eq!(m.active_view().len(), 6);

    m.mark_suspect(peer(2), 0);
    let dead = m.maintenance_tick(3_001);
    assert_eq!(dead, vec![peer(2)]);
    let active = m.active_view();
    assert!(!active.contains(&peer(2)));
    assert!(!m.passive_view().contains(&peer(2)));
    assert!(active.contains(&h));
    assert!(active.len() >= 6);
}

#[test]
fn dead_notification_heals_immediately() {
    let mut m = test_membership();
    for b in 2..8 {
        m.add_active(peer(b), 0);
    }
    m.merge_passive(&vec![peer(8), peer(9)]);
    m.handle_peer_dead(peer(2), 5);
    let active = m.active_view();
    assert!(!active.contains(&peer(2)));
    assert_eq!(active.len(), 6);
    assert_eq!(m.passive_view().len(), 1);
    assert_eq!(m.swim().get_state(&peer(2)), Some(PeerState::Dead));
}

#[test]
fn dead_peers_leave_both_views_on_tick() {
    let mut m = test_membership();
    m.add_active(peer(1), 0);
    m.merge_passive(&vec![peer(2), peer(3)]);
    m.remove_active(peer(1), 1);
    let dead = m.maintenance_tick(10);
    assert!(dead.contains(&peer(1)));
    assert!(!m.active_view().contains(&peer(1)));
    // Degree maintenance pulled both passive peers in.
    assert_eq!(m.active_view().len(), 2);
    assert!(m.passive_view().is_empty());
}

// Views stay within 12 active and 128 passive peers whatever is added.
#[test]
fn views_never_exceed_caps() {
    let mut m = HyParViewMembership::new(12, 128);
    for b in 0..40u8 {
        m.add_active(PeerId::new([b; 32]), 0);
    }
    let many: Vec<PeerId> = (0..250u32)
        .map(|i| {
            let mut bytes = [7u8; 32];
            bytes[0] = (i % 256) as u8;
            bytes[1] = (i / 256) as u8;
            PeerId::new(bytes)
        })
        .collect();
    m.merge_passive(&many);
    m.maintain_degrees();
    assert_eq!(m.active_view().len(), 12);
    assert_eq!(m.passive_view().len(), 128);
    for p in m.active_view() {
        assert!(!m.passive_view().contains(&p));
    }
}

// Shuffle merges views: each side ends up with peers of the other's passive view.
#[test]
fn shuffle_merges_views() {
    let mut a = test_membership();
    let mut b = test_membership();
    let pa: Vec<PeerId> = (10..20).map(peer).collect();
    let pb: Vec<PeerId> = (30..40).map(peer).collect();
    a.merge_passive(&pa);
    b.merge_passive(&pb);
    a.add_active(peer(2), 0);

    assert_eq!(a.shuffle_target(), Some(peer(2)));
    let sample = a.shuffle_sample(5);
    assert_eq!(sample.len(), 5);
    let reply = b.handle_shuffle(&sample);
    assert_eq!(reply.len(), 5);
    a.merge_passive(&reply);

    assert!(pb.iter().any(|q| a.passive_view().contains(q)));
    assert!(pa.iter().any(|q| b.passive_view().contains(q)));
    assert_eq!(b.passive_view().len(), 15);
    assert_eq!(a.passive_view().len(), 15);
}

#[test]
fn shuffle_offers_a_quarter_of_the_passive_degree() {
    let mut a = HyParViewMembership::new(8, 8);
    assert!(a.shuffle().is_none());
    let ps: Vec<PeerId> = (10..20).map(peer).collect();
    a.merge_passive(&ps);
    a.add_active(peer(1), 0);
    let (target, sample) = a.shuffle().expect("an active peer");
    assert_eq!(target, peer(1));
    assert_eq!(sample, vec![peer(10), peer(11)]);
}

#[test]
fn merge_respects_capacity_and_views() {
    let mut a = HyParViewMembership::new(8, 3);
    a.add_active(peer(1), 0);
    a.merge_passive(&vec![peer(1), peer(2), peer(2), peer(3), peer(4), peer(5)]);
    assert_eq!(a.passive_view(), vec![peer(2), peer(3), peer(4)]);
}

#[test]
fn add_active_takes_peer_out_of_passive() {
    let mut a = HyParViewMembership::new(2, 8);
    a.merge_passive(&vec![peer(5)]);
    a.add_active(peer(1), 0);
    a.add_active(peer(2), 0);
    a.add_active(peer(5), 0);
    assert_eq!(a.active_view(), vec![peer(2), peer(5)]);
    assert_eq!(a.passive_view(), vec![peer(1)]);
}

#[test]
fn add_active_reports_the_evicted_peer() {
    let mut m = HyParViewMembership::new(2, 8);
    assert_eq!(m.add_active(peer(1), 0), None);
    assert_eq!(m.add_active(peer(2), 0), None);
    assert_eq!(m.add_active(peer(2), 0), None);
    assert_eq!(m.add_active(peer(3), 0), Some(peer(1)));
    assert_eq!(m.passive_view(), vec![peer(1)]);
}

#[test]
fn join_forwards_to_the_other_active_peers() {
    let mut m = test_membership();
    m.add_active(peer(2), 0);
    m.add_active(peer(3), 0);
    let (evicted, others) = m.handle_join(peer(9), 1);
    assert_eq!(evicted, None);
    assert_eq!(others, vec![peer(2), peer(3)]);
    assert!(m.active_view().contains(&peer(9)));
    assert_eq!(m.swim().get_state(&peer(9)), Some(PeerState::Alive));
}

#[test]
fn forward_join_walks_then_settles() {
    let mut m = test_membership();
    m.add_active(peer(1), 0);
    m.add_active(peer(2), 0);
    assert_eq!(m.handle_forward_join(peer(9), 3, peer(1), 5), Some((peer(2), 2)));
    assert!(m.passive_view().contains(&peer(9)));
    assert!(!m.active_view().contains(&peer(9)));
    assert_eq!(m.handle_forward_join(peer(8), 5, peer(1), 5), Some((peer(2), 4)));
    assert!(!m.passive_view().contains(&peer(8)));
    assert_eq!(m.handle_forward_join(peer(7), 0, peer(1), 5), None);
    assert!(m.active_view().contains(&peer(7)));

    let mut lone = test_membership();
    lone.add_active(peer(1), 0);
    assert_eq!(lone.handle_forward_join(peer(9), 4, peer(1), 5), None);
    assert!(lone.active_view().contains(&peer(9)));
}
