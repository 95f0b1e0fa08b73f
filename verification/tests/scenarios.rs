use godview_core::fixed::{fx_add_exec, fx_div_exec, fx_mul_exec};
use godview_core::godview_space::{Entity, SpatialEngine};
use godview_core::godview_time::AugmentedStateFilter;
use godview_core::godview_trust::issue_capability;
use godview_core::godview_tracking::{Measurement, TrackManager, TrackingConfig};
use godview_core::godview_trust::{AuthError, SecurityContext, SignedPacket};

const FX: i64 = 1_000_000;

fn ent(id: u128, x: i64, y: i64, z: i64, t: i64) -> Entity {
    Entity {
        id,
        position: vec![x, y, z],
        velocity: vec![0, 0, 0],
        entity_type: b"target".to_vec(),
        timestamp: t,
        confidence: FX,
    }
}

fn meas(id: u128, x: i64, y: i64, z: i64, t: i64) -> Measurement {
    Measurement {
        entity: ent(id, x, y, z, t),
        noise: vec![100_000, 0, 0, 0, 100_000, 0, 0, 0, 100_000],
        agent: b"agent_a".to_vec(),
    }
}

fn trace9(p: &Vec<i64>) -> i64 {
    let mut s: i64 = 0;
    for i in 0..9 {
        s += p[i * 9 + i];
    }
    s
}

#[test]
fn single_agent_single_target() {
    let mut tm = TrackManager::new(TrackingConfig::new_default());
    for k in 0..10i64 {
        let m = meas(7, k * FX, 0, 0, k * 100);
        let r = tm.process_measurement(m, k * 100);
        assert!(r.is_ok());
    }
    assert_eq!(tm.tracks.len(), 1);
    let (x, _p) = tm.tracks[0].filter.state();
    assert!((x[0] - 9 * FX).abs() < 300_000, "pos err {}", x[0] - 9 * FX);
    assert!((x[3] - 10 * FX).abs() < 200_000, "vel err {}", x[3] - 10 * FX);
}

#[test]
fn two_agents_convergent_fusion() {
    let mut solo = TrackManager::new(TrackingConfig::new_default());
    for k in 0..10i64 {
        solo.process_measurement(meas(7, k * FX, 0, 0, k * 100), k * 100).unwrap();
    }
    let (_x1, p1) = solo.tracks[0].filter.state();

    let offs: [i64; 10] = [
        200_000, -300_000, 250_000, -150_000, 100_000, -200_000, 300_000, -250_000, 150_000,
        -100_000,
    ];
    let mut duo = TrackManager::new(TrackingConfig::new_default());
    for k in 0..10usize {
        let t = (k as i64) * 100;
        duo.process_measurement(meas(7, (k as i64) * FX, 0, 0, t), t).unwrap();
        let mut m2 = meas(7, (k as i64) * FX + offs[k], offs[9 - k] / 2, 0, t);
        m2.agent = b"agent_b".to_vec();
        duo.process_measurement(m2, t).unwrap();
    }
    assert_eq!(duo.tracks.len(), 1);
    let (_x2, p2) = duo.tracks[0].filter.state();
    let t1 = trace9(&p1);
    let t2 = trace9(&p2);
    assert!(
        (t2 as i128) * 10 < (t1 as i128) * 6,
        "two-agent trace {} not under 0.6x single-agent trace {}",
        t2,
        t1
    );
    assert_eq!(duo.tracks[0].agents.len(), 2);
}

#[test]
fn out_of_sequence_update_matches_in_order() {
    let seq_in_order: [(i64, i64); 5] =
        [(0, 0), (100, FX), (150, 3 * FX / 2), (200, 2 * FX), (300, 3 * FX)];
    let seq_oosm: [(i64, i64); 5] =
        [(0, 0), (100, FX), (200, 2 * FX), (300, 3 * FX), (150, 3 * FX / 2)];

    let mut a = TrackManager::new(TrackingConfig::new_default());
    for (t, x) in seq_in_order {
        a.process_measurement(meas(9, x, 0, 0, t), t).unwrap();
    }
    let mut b = TrackManager::new(TrackingConfig::new_default());
    for (t, x) in seq_oosm {
        b.process_measurement(meas(9, x, 0, 0, t), t).unwrap();
    }
    let (xa, pa) = a.tracks[0].filter.state();
    let (xb, pb) = b.tracks[0].filter.state();
    assert_eq!(xa, xb);
    assert_eq!(pa, pb);
}

#[test]
fn oosm_too_old_is_dropped() {
    let mut tm = TrackManager::new(TrackingConfig::new_default());
    // Window depth 20: flood 22 measurements, then one far in the past.
    for k in 0..22i64 {
        tm.process_measurement(meas(5, k * FX / 10, 0, 0, 1_000 + k * 100), 1_000 + k * 100)
            .unwrap();
    }
    let r = tm.process_measurement(meas(5, 0, 0, 0, 0), 4_000);
    assert!(r.is_err());
    assert_eq!(tm.metrics.oosm_dropped, 1);
}

#[test]
fn spoofed_packet_rejected() {
    let sk_good: Vec<u8> = vec![7u8; 32];
    let sk_evil: Vec<u8> = vec![9u8; 32];
    let good_pub = SignedPacket::new(b"hello".to_vec(), &sk_good, None, 1_000).key_id;
    let ctx = SecurityContext {
        trusted_keys: vec![good_pub],
        freshness_window_ns: 5_000_000_000,
        required_scopes: vec![],
    };
    let spoofed = SignedPacket::new(b"payload".to_vec(), &sk_evil, None, 1_000);
    let r = ctx.verify(&spoofed, 1_500);
    assert_eq!(r, Err(AuthError::UnknownKey));
}

#[test]
fn signature_round_trip() {
    let sk: Vec<u8> = vec![42u8; 32];
    let p = SignedPacket::new(b"observation".to_vec(), &sk, None, 123_456_789);
    let ctx = SecurityContext {
        trusted_keys: vec![p.key_id.clone()],
        freshness_window_ns: 5_000_000_000,
        required_scopes: vec![],
    };
    let r = ctx.verify(&p, 123_456_789 + 1_000);
    assert_eq!(r, Ok(b"observation".to_vec()));
}

#[test]
fn stale_packet_rejected() {
    let sk: Vec<u8> = vec![3u8; 32];
    let p = SignedPacket::new(b"old".to_vec(), &sk, None, 0);
    let ctx = SecurityContext {
        trusted_keys: vec![p.key_id.clone()],
        freshness_window_ns: 5_000_000_000,
        required_scopes: vec![],
    };
    assert_eq!(ctx.verify(&p, 6_000_000_000), Err(AuthError::Stale));
}

#[test]
fn tampered_payload_rejected() {
    let sk: Vec<u8> = vec![4u8; 32];
    let mut p = SignedPacket::new(b"genuine".to_vec(), &sk, None, 50);
    let ctx = SecurityContext {
        trusted_keys: vec![p.key_id.clone()],
        freshness_window_ns: 5_000_000_000,
        required_scopes: vec![],
    };
    p.payload = b"forgery".to_vec();
    assert_eq!(ctx.verify(&p, 60), Err(AuthError::BadSignature));
}

#[test]
fn capability_checks() {
    let issuer_sk: Vec<u8> = vec![11u8; 32];
    let subject_sk: Vec<u8> = vec![12u8; 32];
    let subject_pk = SignedPacket::new(Vec::new(), &subject_sk, None, 0).key_id;
    let issuer_pk = SignedPacket::new(Vec::new(), &issuer_sk, None, 0).key_id;
    let ctx = SecurityContext {
        trusted_keys: vec![subject_pk.clone(), issuer_pk.clone()],
        freshness_window_ns: 5_000_000_000,
        required_scopes: vec![b"hazards".to_vec()],
    };

    // A valid grant passes end to end.
    let cap = issue_capability(&issuer_sk, &subject_pk, b"hazards".to_vec(), 9_000_000_000);
    let p = SignedPacket::new(b"data".to_vec(), &subject_sk, Some(cap), 100);
    assert_eq!(ctx.verify(&p, 200), Ok(b"data".to_vec()));

    // An expired grant.
    let cap2 = issue_capability(&issuer_sk, &subject_pk, b"hazards".to_vec(), 150);
    let p2 = SignedPacket::new(b"data".to_vec(), &subject_sk, Some(cap2), 100);
    assert_eq!(ctx.verify(&p2, 200), Err(AuthError::CapabilityExpired));

    // A grant for a scope nobody demands.
    let cap3 = issue_capability(&issuer_sk, &subject_pk, b"telemetry".to_vec(), 9_000_000_000);
    let p3 = SignedPacket::new(b"data".to_vec(), &subject_sk, Some(cap3), 100);
    assert_eq!(ctx.verify(&p3, 200), Err(AuthError::ScopeMissing));

    // A grant from an untrusted issuer.
    let rogue_sk: Vec<u8> = vec![13u8; 32];
    let cap4 = issue_capability(&rogue_sk, &subject_pk, b"hazards".to_vec(), 9_000_000_000);
    let p4 = SignedPacket::new(b"data".to_vec(), &subject_sk, Some(cap4), 100);
    assert_eq!(ctx.verify(&p4, 200), Err(AuthError::CapabilityInvalid));

    // A packet without a capability while a scope is demanded.
    let p5 = SignedPacket::new(b"data".to_vec(), &subject_sk, None, 100);
    assert_eq!(ctx.verify(&p5, 200), Err(AuthError::ScopeMissing));
}

#[test]
fn duplicate_identity_merge() {
    let mut cfg = TrackingConfig::new_default();
    // A tight gate keeps the two identities from associating into one
    // track, so both spawn and reconciliation must collapse them.
    cfg.assignment_gate_chi2 = 1_000;
    let mut tm = TrackManager::new(cfg);
    let a: u128 = 0x2222;
    let b: u128 = 0x1111;
    tm.process_measurement(meas(a, 0, 0, 0, 0), 0).unwrap();
    tm.process_measurement(meas(b, 300_000, 200_000, 0, 0), 0).unwrap();
    assert_eq!(tm.tracks.len(), 2);
    tm.reconcile(500);
    assert_eq!(tm.tracks.len(), 1);
    assert_eq!(tm.tracks[0].uuid, b, "survivor must be the smaller uuid");
    assert!(tm.tombstones.contains(&(a, b)));
    assert_eq!(tm.metrics.merges_performed, 1);
}

#[test]
fn idle_retirement() {
    let mut tm = TrackManager::new(TrackingConfig::new_default());
    tm.process_measurement(meas(3, 0, 0, 0, 0), 0).unwrap();
    assert_eq!(tm.tracks.len(), 1);
    tm.retire_idle(4_999);
    assert_eq!(tm.tracks.len(), 1, "not yet idle");
    tm.retire_idle(5_000);
    assert_eq!(tm.tracks.len(), 0);
    assert_eq!(tm.metrics.tracks_retired, 1);
    assert!(tm.index.locs.is_empty());
    assert!(tm.tombstones.is_empty(), "retirement is not a merge");
}

#[test]
fn tombstone_redirects_late_arrivals() {
    let mut cfg = TrackingConfig::new_default();
    cfg.assignment_gate_chi2 = 1_000;
    let mut tm = TrackManager::new(cfg);
    let a: u128 = 0x2222;
    let b: u128 = 0x1111;
    tm.process_measurement(meas(a, 0, 0, 0, 0), 0).unwrap();
    tm.process_measurement(meas(b, 300_000, 200_000, 0, 0), 0).unwrap();
    tm.reconcile(500);
    // A late measurement carrying the merged-away identity lands on the
    // survivor rather than resurrecting the loser.
    let r = tm.process_measurement(meas(a, 100_000_000, 0, 0, 600), 600);
    assert!(r.is_ok());
    assert_eq!(r.unwrap(), b);
    assert_eq!(tm.tracks.len(), 1);
}

#[test]
fn versions_strictly_increase() {
    let mut tm = TrackManager::new(TrackingConfig::new_default());
    let mut last: u64 = 0;
    for k in 0..5i64 {
        tm.process_measurement(meas(8, k * FX, 0, 0, k * 100), k * 100).unwrap();
        let v = tm.tracks[0].version;
        assert!(v > last);
        last = v;
    }
}

#[test]
fn covariance_stays_symmetric() {
    let mut tm = TrackManager::new(TrackingConfig::new_default());
    for k in 0..7i64 {
        tm.process_measurement(meas(2, k * FX, k * FX / 2, 0, k * 100), k * 100).unwrap();
    }
    let (_x, p) = tm.tracks[0].filter.state();
    for i in 0..9 {
        for j in 0..9 {
            assert_eq!(p[i * 9 + j], p[j * 9 + i]);
        }
    }
}

#[test]
fn index_single_cell_per_track() {
    let mut e = SpatialEngine::new(584, 584, 2_000_000);
    e.upsert(1, 37_774_900, -122_419_400, 10_000_000);
    e.upsert(1, 37_774_900, -122_419_400, 10_000_000);
    assert_eq!(e.locs.len(), 1, "idempotent upsert");
    e.upsert(1, 37_800_000, -122_419_400, 10_000_000);
    assert_eq!(e.locs.len(), 1, "moved, not duplicated");
    e.remove(1);
    assert_eq!(e.locs.len(), 0);
}

#[test]
fn ring_query_finds_neighbours() {
    let mut e = SpatialEngine::new(584, 584, 2_000_000);
    e.upsert(1, 1_000, 1_000, 0);
    e.upsert(2, 1_300, 1_100, 0);
    e.upsert(3, 300_000_000, 300_000_000, 0);
    let hits = e.query_ring(1_000, 1_000, 0, 1, 2, 10);
    assert!(hits.contains(&1));
    assert!(hits.contains(&2));
    assert!(!hits.contains(&3));
}

#[test]
fn fixed_point_arithmetic_exact() {
    assert_eq!(fx_mul_exec(2 * FX, 3 * FX), 6 * FX);
    assert_eq!(fx_div_exec(FX, 2 * FX), FX / 2);
    assert_eq!(fx_mul_exec(-3 * FX / 2, FX / 2), -3 * FX / 4);
    assert_eq!(fx_add_exec(i64::MAX, i64::MAX), i64::MAX);
}

#[test]
fn filter_rejects_singular_innovation() {
    let x0: Vec<i64> = vec![0; 9];
    let mut p0: Vec<i64> = vec![0; 81];
    for i in 0..9 {
        p0[i * 9 + i] = FX;
    }
    let mut f = AugmentedStateFilter::new(x0, p0, 10_000, 20, 0);
    // A negative noise diagonal cancels the prior exactly: S is singular.
    let bad_noise: Vec<i64> = vec![-FX, 0, 0, 0, -FX, 0, 0, 0, -FX];
    let r = f.update_oosm(vec![FX, 0, 0], bad_noise, 0);
    assert!(r.is_err());
    let ok = f.update_oosm(vec![FX, 0, 0], vec![100_000, 0, 0, 0, 100_000, 0, 0, 0, 100_000], 0);
    assert!(ok.is_ok());
}
