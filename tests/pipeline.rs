use qos_core::banking::{ScoredTransaction, TransactionContainer};
use qos_core::fee::{total_fee, InstructionRef, COMPUTE_BUDGET_ID};
use qos_core::lru::LRUCache;
use qos_core::packet::{u64_key, xxHasher, IpAddress, Meta, Packet, PacketBytes, PACKET_SIZE};
use qos_core::model::IpSignerModel;
use qos_core::pipeline::{
    collect_completed, complete_meta, consume_recent_signature, failed_sigverify_ip, process_parsed_packet, try_process_packet,
    Admission, PacketProcessorError, ParseOutcome, ParsedTransaction, QoSPartialMeta,
    QoSRemainingMeta, Stats,
};

fn packet(size: usize, octets: [u8; 4]) -> Packet {
    Packet {
        buffer: [0u8; 1232],
        meta: Meta { size, addr: IpAddress::V4(octets), port: 8001, flags: 0 },
    }
}

fn limit_ix(cus: u32) -> InstructionRef {
    let mut data = vec![2u8];
    data.extend_from_slice(&cus.to_le_bytes());
    InstructionRef { program_id_index: 1, data }
}

fn price_ix(price: u64) -> InstructionRef {
    let mut data = vec![3u8];
    data.extend_from_slice(&price.to_le_bytes());
    InstructionRef { program_id_index: 1, data }
}

fn signature(n: u8) -> [u8; 64] {
    let mut s = [0u8; 64];
    s[0] = n;
    s
}

fn transaction(sig: u8) -> ParsedTransaction {
    ParsedTransaction {
        signatures: vec![signature(sig)],
        static_account_keys: vec![[9u8; 32], COMPUTE_BUDGET_ID],
        instructions: vec![limit_ix(300_000), price_ix(2_000_000)],
    }
}

type Partial = LRUCache<u64, QoSPartialMeta, 64>;
type Recent = LRUCache<u64, (), 64>;

fn process(
    p: &Packet,
    parsed: &ParseOutcome,
    recent: Option<&Recent>,
    partial: &mut Partial,
    stats: &mut Stats,
) -> Result<Admission, PacketProcessorError> {
    let hasher = xxHasher::initialize_with_seed(7);
    process_parsed_packet(p, parsed, recent, partial, stats, &hasher)
}

fn scored(a: &Admission, p: &Packet, score: u64) -> ScoredTransaction {
    ScoredTransaction { score, sig_key: a.sig_key, packet: *p, ipv4: a.ipv4 }
}

#[test]
fn oversized_meta_is_rejected() {
    let mut partial = Partial::new();
    let mut stats = Stats::new();
    let mut container = TransactionContainer::new(1_000_000);
    let p = packet(1300, [1, 2, 3, 4]);
    let r = process(&p, &ParseOutcome::Valid(transaction(1)), None, &mut partial, &mut stats);
    assert_eq!(r.unwrap_err(), PacketProcessorError::InvalidMetadata);
    assert_eq!(stats.invalid_meta_size, 1);
    assert_eq!(stats.total_packets, 1);
    let out = container.maybe_retrieve::<64>(100, &mut stats, None).unwrap();
    assert!(out.is_empty());
}

#[test]
fn identical_packets_reach_outbound_once() {
    let mut partial = Partial::new();
    let mut stats = Stats::new();
    let mut container = TransactionContainer::new(1_000_000);
    let p = packet(1232, [1, 2, 3, 4]);
    for _ in 0..2 {
        let parsed = ParseOutcome::Valid(transaction(1));
        if let Ok(a) = process(&p, &parsed, None, &mut partial, &mut stats) {
            container.queue(scored(&a, &p, 5), &mut stats);
        }
    }
    assert_eq!(stats.duplicate_packets, 1);
    assert_eq!(container.maybe_retrieve::<64>(99, &mut stats, None).map(|v| v.len()), None);
    let out = container.maybe_retrieve::<64>(100, &mut stats, None).unwrap();
    assert_eq!(out.len(), 1);
}

#[test]
fn admitted_packet_carries_fee_and_keys() {
    let mut partial = Partial::new();
    let mut stats = Stats::new();
    let p = packet(100, [1, 2, 3, 4]);
    let a = process(&p, &ParseOutcome::Valid(transaction(1)), None, &mut partial, &mut stats)
        .unwrap();
    assert_eq!(a.meta.total_fee, 5000 + 600_000);
    assert_eq!(a.meta.cus, 300_000);
    assert_eq!(a.meta.signer, [9u8; 32]);
    assert_eq!(a.ipv4, u32::from_le_bytes([1, 2, 3, 4]));
    assert_eq!(a.meta.ip, a.ipv4);
    assert_eq!(a.sig_key, u64_key(&signature(1)));
    assert_eq!(a.sig_key, 1);
    assert!(partial.contains(a.packet_hash));
    assert_eq!(stats.total_packets, 1);
}

#[test]
fn every_rejection_has_its_error_and_counter() {
    let mut partial = Partial::new();
    let mut stats = Stats::new();
    let p = packet(100, [1, 2, 3, 4]);

    let v6 = Packet {
        buffer: [0u8; 1232],
        meta: Meta { size: 100, addr: IpAddress::V6([0; 16]), port: 1, flags: 0 },
    };
    let r = process(&v6, &ParseOutcome::Valid(transaction(1)), None, &mut partial, &mut stats);
    assert_eq!(r.unwrap_err(), PacketProcessorError::AddrNotIpv4);
    assert_eq!(stats.non_ipv4, 1);

    let r = process(&p, &ParseOutcome::NotTransaction, None, &mut partial, &mut stats);
    assert_eq!(r.unwrap_err(), PacketProcessorError::NonTransactionPacket);
    assert_eq!(stats.invalid_packet_data, 1);

    let r = process(&p, &ParseOutcome::Malformed, None, &mut partial, &mut stats);
    assert_eq!(r.unwrap_err(), PacketProcessorError::FailedTransactionView);
    assert_eq!(stats.failed_view, 1);

    let r = process(&p, &ParseOutcome::Unsanitized, None, &mut partial, &mut stats);
    assert_eq!(r.unwrap_err(), PacketProcessorError::FailedSanitize);
    assert_eq!(stats.failed_sanitize, 1);

    let mut no_payer = transaction(1);
    no_payer.static_account_keys.clear();
    let r = process(&p, &ParseOutcome::Valid(no_payer), None, &mut partial, &mut stats);
    assert_eq!(r.unwrap_err(), PacketProcessorError::InvalidMetadata);
    assert_eq!(stats.invalid_packet_data, 2);

    let mut recent = Recent::new();
    consume_recent_signature(&mut recent, &signature(1), &mut stats);
    assert_eq!(stats.recent_signatures_received, 1);
    let r = process(&p, &ParseOutcome::Valid(transaction(1)), Some(&recent), &mut partial, &mut stats);
    assert_eq!(r.unwrap_err(), PacketProcessorError::RecentlyProcessed);
    assert_eq!(stats.recently_processed, 1);

    assert!(process(&p, &ParseOutcome::Valid(transaction(1)), None, &mut partial, &mut stats).is_ok());
    let r = process(&p, &ParseOutcome::Valid(transaction(1)), None, &mut partial, &mut stats);
    assert_eq!(r.unwrap_err(), PacketProcessorError::DuplicatePacket);
    assert_eq!(stats.duplicate_packets, 1);
    assert_eq!(stats.total_packets, 8);
}

#[test]
fn port_and_flags_do_not_make_a_new_packet() {
    let mut partial = Partial::new();
    let mut stats = Stats::new();
    let p = packet(64, [1, 2, 3, 4]);
    let mut q = p;
    q.meta.port = 9;
    q.meta.flags = 3;
    assert!(process(&p, &ParseOutcome::Valid(transaction(1)), None, &mut partial, &mut stats).is_ok());
    let r = process(&q, &ParseOutcome::Valid(transaction(1)), None, &mut partial, &mut stats);
    assert_eq!(r.unwrap_err(), PacketProcessorError::DuplicatePacket);
    let mut other = p;
    other.buffer[10] = 1;
    assert!(process(&other, &ParseOutcome::Valid(transaction(1)), None, &mut partial, &mut stats).is_ok());
}

#[test]
fn recent_signatures_are_filtered_from_the_queue() {
    let mut partial = Partial::new();
    let mut recent = Recent::new();
    let mut stats = Stats::new();
    let mut container = TransactionContainer::new(1_000_000);
    let p1 = packet(10, [1, 1, 1, 1]);
    let p2 = packet(20, [1, 1, 1, 1]);
    let a1 = process(&p1, &ParseOutcome::Valid(transaction(1)), Some(&recent), &mut partial, &mut stats).unwrap();
    let a2 = process(&p2, &ParseOutcome::Valid(transaction(2)), Some(&recent), &mut partial, &mut stats).unwrap();
    container.queue(scored(&a1, &p1, 10), &mut stats);
    container.queue(scored(&a2, &p2, 20), &mut stats);
    consume_recent_signature(&mut recent, &signature(2), &mut stats);
    let out = container.maybe_retrieve(150, &mut stats, Some(&recent)).unwrap();
    assert_eq!(out.len(), 1);
    assert_eq!(out[0].sig_key, a1.sig_key);
    assert_eq!(stats.recently_processed_queued, 1);
}

#[test]
fn drain_sends_at_most_a_tenth_of_the_target_rate_best_first() {
    let mut stats = Stats::new();
    let mut container = TransactionContainer::new(30);
    let p = packet(1, [1, 1, 1, 1]);
    for s in [5u64, 1, 9, 7, 3] {
        let t = ScoredTransaction { score: s, sig_key: s, packet: p, ipv4: 0 };
        container.queue(t, &mut stats);
    }
    let out = container.maybe_retrieve::<64>(100, &mut stats, None).unwrap();
    let scores: Vec<u64> = out.iter().map(|t| t.score).collect();
    assert_eq!(scores, vec![9, 7, 5]);
    let out = container.maybe_retrieve::<64>(100, &mut stats, None).unwrap();
    let scores: Vec<u64> = out.iter().map(|t| t.score).collect();
    assert_eq!(scores, vec![3, 1]);
}

#[test]
fn full_container_leaks_its_lowest_score() {
    let mut stats = Stats::new();
    let mut container = TransactionContainer::new(1_000_000);
    let p = packet(1, [1, 1, 1, 1]);
    for s in 0..16384u64 {
        let t = ScoredTransaction { score: s + 100, sig_key: s, packet: p, ipv4: 0 };
        container.queue(t, &mut stats);
    }
    assert_eq!(stats.leaked_priority, 1);
    let out = container.maybe_retrieve::<64>(100, &mut stats, None).unwrap();
    assert_eq!(out.len(), 16383);
    assert_eq!(out[0].score, 16483);
    assert_eq!(out[16382].score, 101);
}

#[test]
fn scheduler_report_merges_value() {
    let mut partial = Partial::new();
    let mut stats = Stats::new();
    let meta = QoSPartialMeta { ip: 1, signer: [4u8; 32], total_fee: 10_000, cus: 1 };
    partial.put(77, meta);
    let rm = QoSRemainingMeta { packet_hash: 77, execution_nanos: 0, additional_metadata: () };
    let done = complete_meta(&mut partial, rm, &mut stats).unwrap();
    assert_eq!((done.value_numerator, done.value_denominator), (10_000, 100_000));
    assert_eq!(done.value_numerator as f64 / done.value_denominator as f64, 0.1);
    assert_eq!(stats.completed, 1);
    assert!(complete_meta(&mut partial, rm, &mut stats).is_none());

    partial.put(78, meta);
    let mut batch = Vec::new();
    let rm = QoSRemainingMeta { packet_hash: 78, execution_nanos: 2000, additional_metadata: () };
    assert!(!collect_completed(&mut partial, rm, &mut stats, &mut batch));
    assert_eq!(batch[0].value_numerator as f64 / batch[0].value_denominator as f64, 50.0);
    assert!(!partial.contains(78));
    assert_eq!(stats.completed, 2);
    let rm = QoSRemainingMeta { packet_hash: 3, execution_nanos: 2000, additional_metadata: () };
    let done = meta.merge(rm);
    assert_eq!(done.value_numerator as f64 / done.value_denominator as f64, 50.0);
    assert_eq!(done.signer, [4u8; 32]);
}

#[test]
fn failed_packet_gives_its_address() {
    let p = packet(1, [1, 2, 3, 4]);
    assert_eq!(failed_sigverify_ip(&p), Some(u32::from_le_bytes([1, 2, 3, 4])));
    let v6 = Packet {
        buffer: [0u8; 1232],
        meta: Meta { size: 1, addr: IpAddress::V6([1; 16]), port: 1, flags: 0 },
    };
    assert_eq!(failed_sigverify_ip(&v6), None);
}

#[test]
fn seeded_hash_is_stable_and_sees_the_address() {
    let hasher = xxHasher::initialize_with_seed(0x42);
    let a = packet(1232, [1, 2, 3, 4]);
    let h1 = hasher.packet_hash(&a, [1, 2, 3, 4]);
    let again = xxHasher::initialize_with_seed(0x42);
    assert_eq!(h1, again.packet_hash(&a, [1, 2, 3, 4]));
    let h2 = hasher.packet_hash(&a, [1, 2, 3, 5]);
    assert_ne!(h1, h2);

    let mut input = vec![0u8; 1232];
    input.extend_from_slice(&1232u64.to_le_bytes());
    input.extend_from_slice(&[1, 2, 3, 4]);
    let secret = xxhash_rust::const_xxh3::const_custom_default_secret(0x42);
    assert_eq!(h1, xxhash_rust::xxh3::xxh3_64_with_secret(&input, &secret));
    assert_eq!(hasher.hash(&input), h1);
    assert_ne!(xxHasher::initialize_with_seed(0x43).hash(&input), h1);
}

#[test]
fn signature_key_folds_lanes() {
    let mut sig = [0u8; 64];
    for (i, b) in sig.iter_mut().enumerate() {
        *b = (i * 7 + 3) as u8;
    }
    let mut expected = 0u64;
    for lane in sig.chunks(8) {
        expected ^= u64::from_le_bytes(lane.try_into().unwrap());
    }
    assert_eq!(u64_key(&sig), expected);
    assert_eq!(u64_key(&[0u8; 64]), 0);
    let mut one = [0u8; 64];
    one[9] = 1;
    assert_eq!(u64_key(&one), 0x100);
}

#[test]
fn fee_defaults_and_first_setting_wins() {
    let keys = vec![[9u8; 32], COMPUTE_BUDGET_ID];
    let f = total_fee(2, &keys, &vec![]);
    assert_eq!((f.total_fee, f.requested_cus, f.cu_price), (10_000, 200_000, 0));

    let ixs = vec![limit_ix(1_000), limit_ix(5), price_ix(3_000_000), price_ix(1)];
    let f = total_fee(1, &keys, &ixs);
    assert_eq!((f.requested_cus, f.cu_price), (1_000, 3_000_000));
    assert_eq!(f.total_fee, 5000 + 3_000);

    let mut late = Vec::new();
    for _ in 0..8 {
        late.push(InstructionRef { program_id_index: 1, data: vec![1, 0, 0, 1, 0] });
    }
    late.push(limit_ix(7));
    let f = total_fee(1, &keys, &late);
    assert_eq!(f.requested_cus, 200_000);

    let mut others_first = Vec::new();
    for _ in 0..8 {
        others_first.push(InstructionRef { program_id_index: 0, data: vec![2, 1, 0, 0, 0] });
    }
    others_first.push(limit_ix(7));
    assert_eq!(total_fee(1, &keys, &others_first).requested_cus, 7);

    let wrong_program = vec![InstructionRef { program_id_index: 0, data: vec![2, 1, 0, 0, 0] }];
    assert_eq!(total_fee(1, &keys, &wrong_program).requested_cus, 200_000);
    let bad_index = vec![InstructionRef { program_id_index: 5, data: vec![2, 1, 0, 0, 0] }];
    assert_eq!(total_fee(1, &keys, &bad_index).requested_cus, 200_000);
}

#[test]
fn fee_is_held_at_the_largest_u64() {
    let keys = vec![COMPUTE_BUDGET_ID];
    let mut ixs = vec![limit_ix(u32::MAX), price_ix(u64::MAX)];
    for ix in ixs.iter_mut() {
        ix.program_id_index = 0;
    }
    let f = total_fee(1, &keys, &ixs);
    assert_eq!(f.total_fee, u64::MAX);
}

#[test]
fn packet_bytes_hold_what_they_are_given() {
    let mut bytes = [0u8; PACKET_SIZE];
    bytes[5] = 42;
    let pb = PacketBytes::new(bytes);
    assert_eq!(pb.0[5], 42);
}

fn serialized(required_sigs: u8, cus: u32, price: u64) -> Vec<u8> {
    let mut b = vec![1u8];
    b.extend_from_slice(&signature(5));
    b.extend_from_slice(&[required_sigs, 0, 1]);
    b.push(2);
    b.extend_from_slice(&[9u8; 32]);
    b.extend_from_slice(&COMPUTE_BUDGET_ID);
    b.extend_from_slice(&[3u8; 32]);
    b.push(2);
    b.extend_from_slice(&[1, 0, 5, 2]);
    b.extend_from_slice(&cus.to_le_bytes());
    b.extend_from_slice(&[1, 0, 9, 3]);
    b.extend_from_slice(&price.to_le_bytes());
    b
}

fn wire_packet(payload: &[u8], octets: [u8; 4], flags: u8) -> Packet {
    let mut buffer = [0u8; 1232];
    buffer[..payload.len()].copy_from_slice(payload);
    Packet { buffer, meta: Meta { size: payload.len(), addr: IpAddress::V4(octets), port: 1, flags } }
}

fn penalty(b: u64) -> u64 {
    (f64::from_bits(b) * 0.01).to_bits()
}

#[test]
fn serialized_transaction_is_read_and_admitted() {
    let mut partial = Partial::new();
    let mut stats = Stats::new();
    let mut model = IpSignerModel::new();
    let hasher = xxHasher::initialize_with_seed(1);
    let p = wire_packet(&serialized(1, 300_000, 2_000_000), [1, 2, 3, 4], 0);
    let a = try_process_packet::<_, 64, 64>(&p, None, &mut model, penalty, &mut partial, &mut stats, &hasher)
        .unwrap();
    assert_eq!(a.meta.total_fee, 605_000);
    assert_eq!(a.meta.cus, 300_000);
    assert_eq!(a.meta.signer, [9u8; 32]);
    assert_eq!(a.sig_key, u64_key(&signature(5)));
    let r = try_process_packet::<_, 64, 64>(&p, None, &mut model, penalty, &mut partial, &mut stats, &hasher);
    assert_eq!(r.unwrap_err(), PacketProcessorError::DuplicatePacket);
}

#[test]
fn unreadable_payload_penalizes_its_source() {
    let mut partial = Partial::new();
    let mut stats = Stats::new();
    let mut model = IpSignerModel::new();
    let ip = u32::from_le_bytes([1, 2, 3, 4]);
    model.add_ip_score(ip, 0.4f64.to_bits());
    let hasher = xxHasher::initialize_with_seed(1);
    let p = wire_packet(&[0xff; 10], [1, 2, 3, 4], 0);
    let r = try_process_packet::<_, 64, 64>(&p, None, &mut model, penalty, &mut partial, &mut stats, &hasher);
    assert_eq!(r.unwrap_err(), PacketProcessorError::FailedTransactionView);
    assert_eq!(stats.failed_view, 1);
    let s = f64::from_bits(model.ip_score(ip).unwrap());
    assert!((s - 0.004).abs() < 1e-15);
}

#[test]
fn unsanitary_and_discarded_payloads_are_rejected() {
    let mut partial = Partial::new();
    let mut stats = Stats::new();
    let mut model = IpSignerModel::new();
    let hasher = xxHasher::initialize_with_seed(1);
    let p = wire_packet(&serialized(2, 1, 1), [1, 2, 3, 4], 0);
    let r = try_process_packet::<_, 64, 64>(&p, None, &mut model, penalty, &mut partial, &mut stats, &hasher);
    assert_eq!(r.unwrap_err(), PacketProcessorError::FailedSanitize);
    let p = wire_packet(&serialized(1, 1, 1), [1, 2, 3, 4], 1);
    let r = try_process_packet::<_, 64, 64>(&p, None, &mut model, penalty, &mut partial, &mut stats, &hasher);
    assert_eq!(r.unwrap_err(), PacketProcessorError::NonTransactionPacket);
    assert_eq!(stats.failed_sanitize, 1);
    assert_eq!(stats.invalid_packet_data, 1);
}

#[test]
fn default_packet_bytes_are_zero() {
    let pb = PacketBytes::default();
    assert!(pb.0.iter().all(|b| *b == 0));
}

#[test]
fn model_update_is_due_every_four_hundred_completions() {
    let mut partial = LRUCache::<u64, QoSPartialMeta, 1024>::new();
    let mut stats = Stats::new();
    let mut batch = Vec::new();
    let meta = QoSPartialMeta { ip: 1, signer: [1u8; 32], total_fee: 5000, cus: 1 };
    for h in 0..400u64 {
        partial.put(h, meta);
    }
    for h in 0..399u64 {
        let rm = QoSRemainingMeta { packet_hash: h, execution_nanos: 10, additional_metadata: () };
        assert!(!collect_completed(&mut partial, rm, &mut stats, &mut batch));
    }
    let orphan = QoSRemainingMeta { packet_hash: 9999, execution_nanos: 10, additional_metadata: () };
    assert!(!collect_completed(&mut partial, orphan, &mut stats, &mut batch));
    assert_eq!(batch.len(), 399);
    let rm = QoSRemainingMeta { packet_hash: 399, execution_nanos: 10, additional_metadata: () };
    assert!(collect_completed(&mut partial, rm, &mut stats, &mut batch));
    assert_eq!(batch.len(), 400);
    assert_eq!(stats.completed, 400);
}
