use udp_nat_trav::alpha::{AlphaManager, AlphaObservation};
use udp_nat_trav::beta::BetaManager;
use udp_nat_trav::net::{IpAddress, SocketAddress};
use udp_nat_trav::record::PeerRecord;
use udp_nat_trav::store::ProbeStore;

fn obs(port: u16, t: u64) -> AlphaObservation {
    AlphaObservation { source: SocketAddress::new(IpAddress::V6(1), port), received_at: t }
}

#[test]
fn record_keeps_insertion_order_and_latest_time() {
    let mut r: PeerRecord<AlphaObservation> = PeerRecord::new();
    assert_eq!(r.most_recent(), None);
    assert_eq!(r.test_count(), 0);
    r.record(obs(1, 50));
    r.record(obs(2, 70));
    r.record(obs(3, 60));
    assert_eq!(r.most_recent(), Some(70));
    assert_eq!(r.test_count(), 3);
    assert_eq!(r.observation(2), obs(3, 60));
    assert_eq!(r.observations().clone(), vec![obs(1, 50), obs(2, 70), obs(3, 60)]);
}

#[test]
fn record_completion_threshold() {
    let mut r: PeerRecord<AlphaObservation> = PeerRecord::with_event(obs(1, 0));
    for i in 0..6 {
        r.record(obs(1, i));
    }
    assert_eq!(r.test_count(), 7);
    assert!(!r.is_complete(10));
    r.record(obs(1, 9));
    assert!(r.is_complete(10));
    assert!(!r.is_complete(20));
}

#[test]
fn upsert_creates_then_appends() {
    let mut s: ProbeStore<AlphaObservation> = ProbeStore::new();
    assert!(s.is_empty());
    s.upsert("a", obs(1, 1));
    s.upsert("b", obs(2, 2));
    s.upsert("a", obs(3, 3));
    assert_eq!(s.len(), 2);
    assert_eq!(s.get("a").unwrap().observations().clone(), vec![obs(1, 1), obs(3, 3)]);
    assert_eq!(s.get("b").unwrap().test_count(), 1);
    assert!(s.get("c").is_none());
    let (id, rec) = s.entry(1);
    assert_eq!(id.as_str(), "b");
    assert_eq!(rec.test_count(), 1);
}

#[test]
fn keys_compare_by_whole_text() {
    let mut s: ProbeStore<AlphaObservation> = ProbeStore::new();
    s.upsert("p1", obs(1, 1));
    s.upsert("p10", obs(1, 1));
    s.upsert("é", obs(1, 1));
    assert_eq!(s.len(), 3);
    assert!(s.get("p").is_none());
    assert_eq!(s.get("é").unwrap().test_count(), 1);
}

#[test]
fn eviction_removes_stale_and_keeps_young() {
    let mut s: ProbeStore<AlphaObservation> = ProbeStore::new();
    s.upsert("old", obs(1, 1000));
    s.upsert("edge", obs(1, 2001));
    s.upsert("young", obs(1, 2500));
    s.upsert("young", obs(1, 500));
    s.upsert("future", obs(1, 9000));
    s.evict_stale(5000, 3000);
    assert!(s.get("old").is_none());
    assert!(s.get("edge").is_some());
    assert_eq!(s.get("young").unwrap().test_count(), 2);
    assert!(s.get("future").is_some());
    s.evict_stale(5001, 3000);
    assert!(s.get("edge").is_none());
    assert_eq!(s.len(), 2);
}

#[test]
fn managers_evict_after_staleness_window() {
    let mut alpha = AlphaManager::new();
    let mut beta = BetaManager::new();
    let src = SocketAddress::new(IpAddress::v4(10, 0, 0, 1), 9);
    assert!(alpha.handle_datagram(b"p1", src, 1000));
    assert!(beta.handle_datagram(b"p1#1#2", src, 1000));
    alpha.evict_stale(3999);
    beta.evict_stale(3999);
    assert!(alpha.conclusion_for("p1").is_some());
    assert!(beta.conclusion_for("p1").is_some());
    alpha.evict_stale(4000);
    beta.evict_stale(4000);
    assert!(alpha.conclusion_for("p1").is_none());
    assert!(beta.conclusion_for("p1").is_none());
    assert!(alpha.data().is_empty());
    assert!(beta.data().is_empty());
}

#[test]
fn malformed_datagrams_are_dropped() {
    let mut alpha = AlphaManager::new();
    let mut beta = BetaManager::new();
    let src = SocketAddress::new(IpAddress::v4(10, 0, 0, 1), 9);
    assert!(!alpha.handle_datagram(&[0xff, 0xfe], src, 0));
    assert!(alpha.data().is_empty());
    for bad in [
        &b"p1"[..],
        b"p1#1",
        b"p1#1#",
        b"p1#x#1",
        b"p1#1#65536",
        b"p1#-1#1",
        b"p1# 1#1",
        b"p1#+#1",
        &[0x70, 0x31, 0x23, 0x31, 0x23, 0x31, 0x23, 0xff],
    ] {
        assert!(!beta.handle_datagram(bad, src, 0));
    }
    assert!(beta.data().is_empty());
    assert!(beta.handle_datagram(b"p1#+7#65535#extra", src, 0));
    let rec = beta.data().get("p1").unwrap();
    assert_eq!(rec.observation(0).claimed_origin_port, 7);
    assert_eq!(rec.observation(0).sequence_number, 65535);
}
