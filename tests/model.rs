use qos_core::model::{IpSignerModel, ScoreTable, ONE_SCORE};

fn bits(x: f64) -> u64 {
    x.to_bits()
}

#[test]
fn feedback_cuts_a_score_a_hundredfold() {
    let mut model = IpSignerModel::new();
    let ip = u32::from_le_bytes([1, 2, 3, 4]);
    model.add_ip_score(ip, bits(0.4));
    model.ip_feedback(ip, |b| (f64::from_bits(b) * 0.01).to_bits());
    let s = f64::from_bits(model.ip_score(ip).unwrap());
    assert!((s - 0.004).abs() < 1e-15);
    assert_eq!(model.approximate_median_ip_score(), model.ip_score(ip).unwrap());
    model.ip_feedback(99, |_| 0);
    assert_eq!(model.ip_score(99), None);
}

#[test]
fn unknown_ids_get_the_medians() {
    let mut model = IpSignerModel::new();
    assert_eq!(model.forward(1, &[0u8; 32]), (ONE_SCORE, ONE_SCORE));
    assert_eq!(f64::from_bits(ONE_SCORE), 1.0);
    for (ip, s) in [(1u32, 0.5), (2, 2.0), (3, 8.0)] {
        model.add_ip_score(ip, bits(s));
    }
    model.add_signer_score([1u8; 32], bits(3.0));
    assert_eq!(model.forward(9, &[5u8; 32]), (bits(2.0), bits(3.0)));
    assert_eq!(model.forward(3, &[1u8; 32]), (bits(8.0), bits(3.0)));
}

#[test]
fn prune_keeps_the_extremes() {
    let mut model = IpSignerModel::new();
    for ip in 0..10u32 {
        model.add_ip_score(ip, bits(ip as f64));
        model.add_signer_score([ip as u8; 32], bits(ip as f64));
    }
    model.prune(4, 3);
    let kept: Vec<u32> = (0..10).filter(|ip| model.ip_score(*ip).is_some()).collect();
    assert_eq!(kept, vec![0, 1, 8, 9]);
    let kept: Vec<u8> = (0..10u8).filter(|s| model.signer_score(&[*s; 32]).is_some()).collect();
    assert_eq!(kept, vec![0, 1, 9]);
    model.prune(0, 0);
    assert_eq!(model.forward(0, &[0u8; 32]), (ONE_SCORE, ONE_SCORE));
}

#[test]
fn replacing_a_score_keeps_one_entry() {
    let mut table = ScoreTable::<4>::new();
    table.set([1, 0, 0, 0], 5);
    table.set([2, 0, 0, 0], 7);
    table.set([1, 0, 0, 0], 9);
    assert_eq!(table.len(), 2);
    assert_eq!(table.get(&[1, 0, 0, 0]), Some(9));
    assert_eq!(table.median(), 9);
    table.prune(1);
    assert_eq!(table.len(), 1);
    assert_eq!(table.get(&[2, 0, 0, 0]), Some(7));
}

#[test]
fn ordered_view_matches_lookups() {
    let mut model = IpSignerModel::new();
    for (ip, s) in [(7u32, 3.0), (8, 1.0), (9, 2.0), (8, 5.0)] {
        model.add_ip_score(ip, bits(s));
    }
    let entries = model.ip_entries();
    let scores: Vec<f64> = entries.iter().map(|(b, _)| f64::from_bits(*b)).collect();
    assert_eq!(scores, vec![2.0, 3.0, 5.0]);
    for (b, id) in entries {
        assert_eq!(model.ip_score(u32::from_le_bytes(id)), Some(b));
    }
}

fn obs(ip: u32, signer: u8, value: f64) -> qos_core::model::Observation {
    qos_core::model::Observation { ip, signer: [signer; 32], value: bits(value) }
}

fn learn(model: &mut IpSignerModel, batch: &Vec<qos_core::model::Observation>, signers: usize, ips: usize) {
    model.update_model(
        batch,
        |a, b| bits(f64::from_bits(a) + f64::from_bits(b)),
        |s, n| bits(f64::from_bits(s) / n as f64),
        |o, t| bits(f64::from_bits(o) * 0.95 + f64::from_bits(t) * 0.05),
        signers,
        ips,
    );
}

#[test]
fn update_admits_ids_seen_five_times() {
    let mut model = IpSignerModel::new();
    model.add_ip_score(3, bits(1.0));
    let mut batch = Vec::new();
    for _ in 0..5 {
        batch.push(obs(1, 0xa, 2.0));
    }
    for _ in 0..4 {
        batch.push(obs(2, 0xb, 3.0));
    }
    learn(&mut model, &batch, 10, 10);
    assert_eq!(model.ip_score(1), Some(bits(2.0)));
    assert_eq!(model.ip_score(2), None);
    assert_eq!(model.ip_score(3), Some(bits(1.0)));
    assert_eq!(model.signer_score(&[0xa; 32]), Some(bits(2.0)));
    assert_eq!(model.signer_score(&[0xb; 32]), None);
}

#[test]
fn update_moves_known_scores_by_moving_average() {
    let mut model = IpSignerModel::new();
    model.add_ip_score(1, bits(2.0));
    model.add_ip_score(2, bits(8.0));
    let batch: Vec<_> = (0..5).map(|_| obs(1, 1, 4.0)).collect();
    learn(&mut model, &batch, 10, 10);
    let s = f64::from_bits(model.ip_score(1).unwrap());
    assert!((s - 2.1).abs() < 1e-12);
    let median_target = f64::from_bits(model.ip_score(2).unwrap());
    assert!((median_target - (8.0 * 0.95 + 8.0 * 0.05)).abs() < 1e-12);
}

#[test]
fn update_prunes_to_the_bounds() {
    let mut model = IpSignerModel::new();
    let mut batch = Vec::new();
    for ip in 0..6u32 {
        for _ in 0..5 {
            batch.push(obs(ip, ip as u8, ip as f64));
        }
    }
    learn(&mut model, &batch, 2, 3);
    assert_eq!(model.ip_entries().len(), 3);
    assert_eq!(model.signer_entries().len(), 2);
    assert!(model.ip_score(0).is_some() && model.ip_score(5).is_some());
}
