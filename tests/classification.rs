use udp_nat_trav::alpha::{AlphaManager, AlphaObservation, AlphaResult};
use udp_nat_trav::beta::{BetaManager, BetaObservation, BetaResult};
use udp_nat_trav::classify::{best_index, percent_of};
use udp_nat_trav::net::{IpAddress, SocketAddress};
use udp_nat_trav::query::query;
use udp_nat_trav::record::PeerRecord;

fn addr(a: u8, b: u8, c: u8, d: u8, port: u16) -> SocketAddress {
    SocketAddress::new(IpAddress::v4(a, b, c, d), port)
}

fn alpha_record(sources: &[SocketAddress]) -> PeerRecord<AlphaObservation> {
    let mut r = PeerRecord::new();
    for (i, s) in sources.iter().enumerate() {
        r.record(AlphaObservation { source: *s, received_at: i as u64 });
    }
    r
}

fn beta_record(items: &[(u16, u16, u16)]) -> PeerRecord<BetaObservation> {
    let mut r = PeerRecord::new();
    for (i, (external, origin, seq)) in items.iter().enumerate() {
        r.record(BetaObservation {
            source: addr(203, 0, 113, 5, *external),
            claimed_origin_port: *origin,
            sequence_number: *seq,
            received_at: i as u64,
        });
    }
    r
}

#[test]
fn ipv4_address_spells_octets() {
    assert_eq!(IpAddress::v4(198, 51, 100, 7), IpAddress::V4(0xC633_6407));
}

#[test]
fn incomplete_alpha_record_is_unknown_only() {
    let sources: Vec<SocketAddress> = (0..7).map(|i| addr(10, 0, 0, 1, 5000 + i)).collect();
    let r = alpha_record(&sources);
    assert_eq!(r.analysis(), vec![(AlphaResult::Unknown, 80)]);
    assert_eq!(r.conclusion(), (AlphaResult::Unknown, 80));
}

#[test]
fn incomplete_beta_record_is_unknown_only() {
    let items: Vec<(u16, u16, u16)> = (0..7).map(|i| (40000 + i, 40000 + i, i)).collect();
    let r = beta_record(&items);
    assert_eq!(r.analysis(), vec![(BetaResult::Unknown, 80)]);
    assert_eq!(r.conclusion(), (BetaResult::Unknown, 80));
}

#[test]
fn alpha_constant_source_concludes_constant() {
    let a = addr(192, 0, 2, 1, 61000);
    let r = alpha_record(&[a; 10]);
    assert_eq!(
        r.analysis(),
        vec![
            (AlphaResult::Unknown, 80),
            (AlphaResult::SrcIpPortConstant(a.ip, 61000), 100),
            (AlphaResult::SrcIpPortInconstant, 0),
        ]
    );
    assert_eq!(r.conclusion(), (AlphaResult::SrcIpPortConstant(a.ip, 61000), 100));
}

#[test]
fn alpha_distinct_sources_concludes_inconstant() {
    let sources: Vec<SocketAddress> = (0..10).map(|i| addr(192, 0, 2, 1, 61000 + i)).collect();
    let r = alpha_record(&sources);
    let h = r.analysis();
    assert_eq!(h.len(), 12);
    assert_eq!(h[1], (AlphaResult::SrcIpPortConstant(IpAddress::v4(192, 0, 2, 1), 61000), 10));
    assert_eq!(h[11], (AlphaResult::SrcIpPortInconstant, 100));
    assert_eq!(r.conclusion(), (AlphaResult::SrcIpPortInconstant, 100));
}

#[test]
fn alpha_mixed_sources_in_first_appearance_order() {
    let a = addr(192, 0, 2, 1, 1000);
    let b = addr(192, 0, 2, 1, 2000);
    let c = addr(192, 0, 2, 9, 1000);
    let d = addr(192, 0, 2, 1, 3000);
    // five from a, three from b, one each from c and d
    let r = alpha_record(&[b, a, a, c, b, a, a, d, b, a]);
    assert_eq!(
        r.analysis(),
        vec![
            (AlphaResult::Unknown, 80),
            (AlphaResult::SrcIpPortConstant(b.ip, 2000), 30),
            (AlphaResult::SrcIpPortConstant(a.ip, 1000), 50),
            (AlphaResult::SrcIpPortConstant(c.ip, 1000), 10),
            (AlphaResult::SrcIpPortConstant(d.ip, 3000), 10),
            (AlphaResult::SrcIpPortInconstant, 20),
        ]
    );
    assert_eq!(r.conclusion(), (AlphaResult::Unknown, 80));
}

#[test]
fn alpha_confidence_is_floored() {
    // eight of nine from one source: floor(800 / 9) = 88
    let a = addr(192, 0, 2, 1, 1000);
    let b = addr(192, 0, 2, 1, 1001);
    let r = alpha_record(&[a, a, a, a, b, a, a, a, a]);
    assert_eq!(r.conclusion(), (AlphaResult::SrcIpPortConstant(a.ip, 1000), 88));
    assert_eq!(r.analysis()[3], (AlphaResult::SrcIpPortInconstant, 11));
}

#[test]
fn beta_port_preserved_concludes_as_orig() {
    let items: Vec<(u16, u16, u16)> = (0..10).map(|i| (40000 + i, 40000 + i, i)).collect();
    let r = beta_record(&items);
    assert_eq!(
        r.analysis(),
        vec![
            (BetaResult::Unknown, 80),
            (BetaResult::SrcPortAsOrig, 100),
            (BetaResult::SrcPortConstantDiffToOrig, 0),
            (BetaResult::SrcPortCloseToOrig, 0),
            (BetaResult::SrcPortRoundRobin, 100),
        ]
    );
    assert_eq!(r.conclusion(), (BetaResult::SrcPortAsOrig, 100));
}

#[test]
fn beta_constant_difference_concludes_constant_diff() {
    let items: Vec<(u16, u16, u16)> = (0..10).map(|i| (50000 + i, 30000 + i, i)).collect();
    let r = beta_record(&items);
    assert_eq!(r.conclusion(), (BetaResult::SrcPortConstantDiffToOrig, 100));
}

#[test]
fn beta_tie_goes_to_first_registered() {
    // every delta is +50: constant difference and close both reach 100
    let items: Vec<(u16, u16, u16)> = (0..10).map(|i| (30050 + i, 30000 + i, i)).collect();
    let r = beta_record(&items);
    let h = r.analysis();
    assert_eq!(h[2], (BetaResult::SrcPortConstantDiffToOrig, 100));
    assert_eq!(h[3], (BetaResult::SrcPortCloseToOrig, 100));
    assert_eq!(r.conclusion(), (BetaResult::SrcPortConstantDiffToOrig, 100));
}

#[test]
fn beta_close_counts_nonzero_deltas_within_tolerance() {
    // deltas: 0, 1, -1, 100, -100, 101, -101, 0, 5, 200
    let deltas: [i32; 10] = [0, 1, -1, 100, -100, 101, -101, 0, 5, 200];
    let items: Vec<(u16, u16, u16)> = deltas
        .iter()
        .enumerate()
        .map(|(i, d)| ((30000 + d) as u16, 30000, i as u16))
        .collect();
    let r = beta_record(&items);
    let h = r.analysis();
    assert_eq!(h[1], (BetaResult::SrcPortAsOrig, 0));
    assert_eq!(h[2], (BetaResult::SrcPortConstantDiffToOrig, 0));
    assert_eq!(h[3], (BetaResult::SrcPortCloseToOrig, 50));
}

#[test]
fn beta_round_robin_sorts_by_sequence_and_wraps() {
    // received out of order; in sequence order the external ports are
    // 65000, 65500, 464 (wraps: +500), 1464, 30000 (+28536), 30001, 30002, 30003
    let items = [
        (464u16, 1u16, 2u16),
        (65000, 2, 0),
        (30000, 3, 4),
        (65500, 4, 1),
        (1464, 5, 3),
        (30003, 6, 7),
        (30001, 7, 5),
        (30002, 8, 6),
    ];
    let r = beta_record(&items);
    let h = r.analysis();
    assert_eq!(h.len(), 5);
    // 6 of 7 steps are at most 5000: floor(600 / 7) = 85
    assert_eq!(h[4], (BetaResult::SrcPortRoundRobin, 85));
    assert_eq!(r.conclusion(), (BetaResult::SrcPortRoundRobin, 85));
}

#[test]
fn beta_round_robin_keeps_order_of_equal_sequence_numbers() {
    // two observations share sequence number 3; the earlier one stays first
    let items = [
        (1000u16, 1u16, 3u16),
        (9000, 2, 3),
        (500, 3, 0),
        (600, 4, 1),
        (700, 5, 2),
        (9100, 6, 4),
        (9200, 7, 5),
        (9300, 8, 6),
    ];
    let r = beta_record(&items);
    // steps: 100, 100, 300, 8000, 100, 100, 100 -> 6 of 7
    assert_eq!(r.analysis()[4], (BetaResult::SrcPortRoundRobin, 85));
}

#[test]
fn conclusion_is_stable_across_calls() {
    let a = addr(192, 0, 2, 1, 61000);
    let r = alpha_record(&[a; 10]);
    assert_eq!(r.conclusion(), r.conclusion());
    let items: Vec<(u16, u16, u16)> = (0..10).map(|i| (40000 + 3 * i, 40000, i)).collect();
    let b = beta_record(&items);
    assert_eq!(b.conclusion(), b.conclusion());
    assert_eq!(b.analysis(), b.analysis());
}

#[test]
fn percent_of_floors_and_handles_zero() {
    assert_eq!(percent_of(0, 0), 0);
    assert_eq!(percent_of(1, 3), 33);
    assert_eq!(percent_of(2, 3), 66);
    assert_eq!(percent_of(7, 7), 100);
    assert_eq!(percent_of(usize::MAX, usize::MAX), 100);
}

#[test]
fn best_index_prefers_first_of_equals() {
    let h = vec![(0u8, 80usize), (1, 100), (2, 100), (3, 20)];
    assert_eq!(best_index(&h), 1);
    let h = vec![(0u8, 80usize), (1, 80)];
    assert_eq!(best_index(&h), 0);
}

#[test]
fn alpha_listener_scenario_constant_source() {
    let mut m = AlphaManager::new();
    let src = addr(198, 51, 100, 7, 40000);
    for t in 0..10u64 {
        assert!(m.handle_datagram(b"p1", src, 100 + t));
    }
    assert_eq!(
        m.conclusion_for("p1"),
        Some((AlphaResult::SrcIpPortConstant(IpAddress::v4(198, 51, 100, 7), 40000), 100))
    );
    assert_eq!(m.data().len(), 1);
}

#[test]
fn beta_listener_scenario_constant_difference() {
    let mut m = BetaManager::new();
    for i in 0..10u16 {
        let payload = format!("p1#{}#{}", 30000 + i, i);
        let src = addr(198, 51, 100, 7, 40000 + i);
        assert!(m.handle_datagram(payload.as_bytes(), src, 100 + i as u64));
    }
    assert_eq!(m.conclusion_for("p1"), Some((BetaResult::SrcPortConstantDiffToOrig, 100)));
}

#[test]
fn query_for_unprobed_remote_is_partial() {
    let mut alpha = AlphaManager::new();
    let mut beta = BetaManager::new();
    let src = addr(198, 51, 100, 7, 40000);
    for i in 0..10u16 {
        assert!(alpha.handle_datagram(b"p1", src, 10));
        let payload = format!("p1#{}#{}", 30000 + i, i);
        assert!(beta.handle_datagram(payload.as_bytes(), addr(198, 51, 100, 7, 40000 + i), 10));
    }
    let r = query(&alpha, &beta, "p1", "p2");
    assert_eq!(
        r.requester_alpha,
        Some((AlphaResult::SrcIpPortConstant(IpAddress::v4(198, 51, 100, 7), 40000), 100))
    );
    assert_eq!(r.requester_beta, Some((BetaResult::SrcPortConstantDiffToOrig, 100)));
    assert_eq!(r.remote_alpha, None);
    assert_eq!(r.remote_beta, None);
}

#[test]
fn query_for_incomplete_peer_is_unknown() {
    let mut alpha = AlphaManager::new();
    let beta = BetaManager::new();
    assert!(alpha.handle_datagram(b"p2", addr(10, 0, 0, 2, 7), 0));
    let r = query(&alpha, &beta, "p1", "p2");
    assert_eq!(r.requester_alpha, None);
    assert_eq!(r.requester_beta, None);
    assert_eq!(r.remote_alpha, Some((AlphaResult::Unknown, 80)));
    assert_eq!(r.remote_beta, None);
}
