//! Per-packet admission rules, the stage's counters, and the merging of
//! pre-execution metadata with the scheduler's execution reports.
use crate::fee::{cu_price_of, requested_cus_of, total_fee, InstructionRef, fee_of};
use crate::lru::{model_put, LRUCache};
use crate::model::{penalized, IpSignerModel};
use crate::view::{describes, keys_view, read_transaction, signatures_view};
use crate::packet::{hash_input, ipv4_key, ipv4_to_key, sig_key, u64_key, xxh3_64_of, xxHasher, IpAddress, Packet, PACKET_DATA_SIZE};
use vstd::prelude::*;

verus! {

/// Why a packet was dropped.
#[derive(Clone, Copy, Debug, PartialEq, Eq, Structural)]
pub enum PacketProcessorError {
    AddrNotIpv4,
    NonTransactionPacket,
    FailedTransactionView,
    FailedSanitize,
    InvalidMetadata,
    DuplicatePacket,
    RecentlyProcessed,
}

/// Counters kept by the stage.
#[derive(Clone, Copy, Debug)]
pub struct Stats {
    pub total_packets: usize,
    pub non_ipv4: usize,
    pub non_transaction_packet: usize,
    pub recently_processed: usize,
    pub recently_processed_queued: usize,
    pub recent_signatures_received: usize,
    pub invalid_meta_size: usize,
    pub failed_sanitize: usize,
    pub failed_view: usize,
    pub invalid_packet_data: usize,
    pub leaked_priority: usize,
    pub duplicate_packets: usize,
    pub banking_transmissions: usize,
    pub zero_score: usize,
    pub completed: usize,
}

/// `x + 1`, held at `usize::MAX`.
pub open spec fn inc(x: usize) -> usize {
    if x < usize::MAX {
        (x + 1) as usize
    } else {
        x
    }
}

/// The counter a packet outcome adds to, beside `total_packets`.
pub enum Counter {
    NonIpv4,
    InvalidMetaSize,
    InvalidPacketData,
    FailedView,
    FailedSanitize,
    RecentlyProcessed,
    DuplicatePackets,
    Admitted,
}

/// `s` after one more packet with outcome `c`.
pub open spec fn bumped(s: Stats, c: Counter) -> Stats {
    let s = Stats { total_packets: inc(s.total_packets), ..s };
    match c {
        Counter::NonIpv4 => Stats { non_ipv4: inc(s.non_ipv4), ..s },
        Counter::InvalidMetaSize => Stats { invalid_meta_size: inc(s.invalid_meta_size), ..s },
        Counter::InvalidPacketData => Stats { invalid_packet_data: inc(s.invalid_packet_data), ..s },
        Counter::FailedView => Stats { failed_view: inc(s.failed_view), ..s },
        Counter::FailedSanitize => Stats { failed_sanitize: inc(s.failed_sanitize), ..s },
        Counter::RecentlyProcessed => Stats { recently_processed: inc(s.recently_processed), ..s },
        Counter::DuplicatePackets => Stats { duplicate_packets: inc(s.duplicate_packets), ..s },
        Counter::Admitted => s,
    }
}

impl Stats {
    pub open spec fn zero() -> Stats {
        Stats {
            total_packets: 0,
            non_ipv4: 0,
            non_transaction_packet: 0,
            recently_processed: 0,
            recently_processed_queued: 0,
            recent_signatures_received: 0,
            invalid_meta_size: 0,
            failed_sanitize: 0,
            failed_view: 0,
            invalid_packet_data: 0,
            leaked_priority: 0,
            duplicate_packets: 0,
            banking_transmissions: 0,
            zero_score: 0,
            completed: 0,
        }
    }

    /// All counters at zero.
    pub fn new() -> (r: Stats)
        ensures
            r == Stats::zero(),
    {
        Stats {
            total_packets: 0,
            non_ipv4: 0,
            non_transaction_packet: 0,
            recently_processed: 0,
            recently_processed_queued: 0,
            recent_signatures_received: 0,
            invalid_meta_size: 0,
            failed_sanitize: 0,
            failed_view: 0,
            invalid_packet_data: 0,
            leaked_priority: 0,
            duplicate_packets: 0,
            banking_transmissions: 0,
            zero_score: 0,
            completed: 0,
        }
    }

    fn count(&mut self, c: Counter)
        ensures
            *final(self) == bumped(*old(self), c),
    {
        self.total_packets = self.total_packets.saturating_add(1);
        match c {
            Counter::NonIpv4 => self.non_ipv4 = self.non_ipv4.saturating_add(1),
            Counter::InvalidMetaSize => self.invalid_meta_size = self.invalid_meta_size.saturating_add(1),
            Counter::InvalidPacketData => self.invalid_packet_data = self.invalid_packet_data.saturating_add(1),
            Counter::FailedView => self.failed_view = self.failed_view.saturating_add(1),
            Counter::FailedSanitize => self.failed_sanitize = self.failed_sanitize.saturating_add(1),
            Counter::RecentlyProcessed => self.recently_processed = self.recently_processed.saturating_add(1),
            Counter::DuplicatePackets => self.duplicate_packets = self.duplicate_packets.saturating_add(1),
            Counter::Admitted => {},
        }
    }
}

/// The subset of metadata known before signature checks and execution.
#[derive(Clone, Copy, Debug)]
pub struct QoSPartialMeta {
    pub ip: u32,
    pub signer: [u8; 32],
    pub total_fee: u64,
    pub cus: u32,
}

/// Execution report from the scheduler; zero nanoseconds means the
/// transaction was not scheduled.
#[derive(Clone, Copy, Debug)]
pub struct QoSRemainingMeta {
    pub packet_hash: u64,
    pub execution_nanos: u64,
    pub additional_metadata: (),
}

/// Execution time assumed for a transaction that was not scheduled.
pub const UNSCHEDULED_NANOS: u64 = 100_000;

/// Weight of a transaction that was scheduled.
pub const SCHEDULED_WEIGHT: u128 = 10;

/// Complete metadata of a transaction: its value is the exact ratio
/// `value_numerator / value_denominator` (fee per nanosecond, weighted).
#[derive(Clone, Copy, Debug)]
pub struct QoSTransactionMeta {
    pub ip: u32,
    pub signer: [u8; 32],
    pub value_numerator: u128,
    pub value_denominator: u64,
}

/// The complete metadata `merge` makes.
pub open spec fn merged(p: QoSPartialMeta, rm: QoSRemainingMeta) -> QoSTransactionMeta {
    if rm.execution_nanos == 0 {
        QoSTransactionMeta {
            ip: p.ip,
            signer: p.signer,
            value_numerator: p.total_fee as u128,
            value_denominator: UNSCHEDULED_NANOS,
        }
    } else {
        QoSTransactionMeta {
            ip: p.ip,
            signer: p.signer,
            value_numerator: (SCHEDULED_WEIGHT * p.total_fee as u128) as u128,
            value_denominator: rm.execution_nanos,
        }
    }
}

impl QoSPartialMeta {
    /// Metadata of a transaction from address `octets` paid by `signer`.
    pub fn new(octets: [u8; 4], signer: [u8; 32], total_fee: u64, cus: u32) -> (r: QoSPartialMeta)
        ensures
            r.ip == ipv4_key(octets),
            r.signer == signer,
            r.total_fee == total_fee,
            r.cus == cus,
    {
        QoSPartialMeta { ip: ipv4_to_key(octets), signer, total_fee, cus }
    }

    /// Completes the metadata with the scheduler's report: an unscheduled
    /// transaction counts `100_000` ns; a scheduled one weighs ten times.
    pub fn merge(self, remaining_meta: QoSRemainingMeta) -> (r: QoSTransactionMeta)
        ensures
            r.ip == self.ip,
            r.signer == self.signer,
            remaining_meta.execution_nanos == 0 ==> r.value_numerator == self.total_fee as u128
                && r.value_denominator == UNSCHEDULED_NANOS,
            remaining_meta.execution_nanos > 0 ==> r.value_numerator == SCHEDULED_WEIGHT
                * self.total_fee as u128 && r.value_denominator == remaining_meta.execution_nanos,
            r == merged(self, remaining_meta),
    {
        if remaining_meta.execution_nanos == 0 {
            QoSTransactionMeta {
                ip: self.ip,
                signer: self.signer,
                value_numerator: self.total_fee as u128,
                value_denominator: UNSCHEDULED_NANOS,
            }
        } else {
            QoSTransactionMeta {
                ip: self.ip,
                signer: self.signer,
                value_numerator: SCHEDULED_WEIGHT * self.total_fee as u128,
                value_denominator: remaining_meta.execution_nanos,
            }
        }
    }
}

/// A transaction as read from a packet payload.
pub struct ParsedTransaction {
    pub signatures: Vec<[u8; 64]>,
    pub static_account_keys: Vec<[u8; 32]>,
    pub instructions: Vec<InstructionRef>,
}

/// What reading the payload as a transaction gave.
pub enum ParseOutcome {
    /// The packet carries no payload.
    NotTransaction,
    /// The payload is not a transaction.
    Malformed,
    /// A transaction that fails sanitization.
    Unsanitized,
    Valid(ParsedTransaction),
}

/// A packet that passed the admission rules.
#[derive(Clone, Copy, Debug)]
pub struct Admission {
    pub sig_key: u64,
    pub packet_hash: u64,
    pub ipv4: u32,
    pub meta: QoSPartialMeta,
}

/// The partial metadata of a valid transaction from address `octets`.
pub open spec fn partial_meta_of(octets: [u8; 4], tx: ParsedTransaction) -> QoSPartialMeta {
    let keys = tx.static_account_keys@;
    let ixs = tx.instructions@;
    let cus = requested_cus_of(keys, ixs);
    QoSPartialMeta {
        ip: ipv4_key(octets),
        signer: keys[0],
        total_fee: fee_of(tx.signatures@.len(), cus, cu_price_of(keys, ixs)),
        cus,
    }
}

/// The outcome of the admission rules on `packet` read as `parsed`: the
/// result, the counters, and the partial-metadata cache. The rules run in
/// order: IPv4 source, payload size, a payload that reads and sanitizes as a
/// transaction, a first signature not seen recently, a fee payer, and a
/// packet hash not cached before; an admitted packet's partial metadata is
/// cached under its hash.
pub open spec fn processed<const SIG_CACHE_SIZE: usize, const CACHE_SIZE: usize>(
    packet: Packet,
    parsed: ParseOutcome,
    recent_signatures: Option<&LRUCache<u64, (), SIG_CACHE_SIZE>>,
    old_partial: LRUCache<u64, QoSPartialMeta, CACHE_SIZE>,
    new_partial: LRUCache<u64, QoSPartialMeta, CACHE_SIZE>,
    old_stats: Stats,
    new_stats: Stats,
    secret: Seq<u8>,
    r: Result<Admission, PacketProcessorError>,
) -> bool {
    match packet.meta.addr {
        IpAddress::V6(_) => {
            &&& r == Err::<Admission, _>(PacketProcessorError::AddrNotIpv4)
            &&& new_stats == bumped(old_stats, Counter::NonIpv4)
            &&& new_partial == old_partial
        },
        IpAddress::V4(octets) => if packet.meta.size > PACKET_DATA_SIZE {
            &&& r == Err::<Admission, _>(PacketProcessorError::InvalidMetadata)
            &&& new_stats == bumped(old_stats, Counter::InvalidMetaSize)
            &&& new_partial == old_partial
        } else {
            match parsed {
                ParseOutcome::NotTransaction => {
                    &&& r == Err::<Admission, _>(PacketProcessorError::NonTransactionPacket)
                    &&& new_stats == bumped(old_stats, Counter::InvalidPacketData)
                    &&& new_partial == old_partial
                },
                ParseOutcome::Malformed => {
                    &&& r == Err::<Admission, _>(PacketProcessorError::FailedTransactionView)
                    &&& new_stats == bumped(old_stats, Counter::FailedView)
                    &&& new_partial == old_partial
                },
                ParseOutcome::Unsanitized => {
                    &&& r == Err::<Admission, _>(PacketProcessorError::FailedSanitize)
                    &&& new_stats == bumped(old_stats, Counter::FailedSanitize)
                    &&& new_partial == old_partial
                },
                ParseOutcome::Valid(tx) => if tx.signatures@.len() == 0 {
                    &&& r == Err::<Admission, _>(PacketProcessorError::InvalidMetadata)
                    &&& new_stats == bumped(old_stats, Counter::InvalidPacketData)
                    &&& new_partial == old_partial
                } else if recent_signatures matches Some(rs) && rs@.contains_key(
                    sig_key(tx.signatures@[0]@),
                ) {
                    &&& r == Err::<Admission, _>(PacketProcessorError::RecentlyProcessed)
                    &&& new_stats == bumped(old_stats, Counter::RecentlyProcessed)
                    &&& new_partial == old_partial
                } else if tx.static_account_keys@.len() == 0 {
                    &&& r == Err::<Admission, _>(PacketProcessorError::InvalidMetadata)
                    &&& new_stats == bumped(old_stats, Counter::InvalidPacketData)
                    &&& new_partial == old_partial
                } else {
                    let meta = partial_meta_of(octets, tx);
                    let h = xxh3_64_of(
                        hash_input(packet.buffer@, packet.meta.size, octets),
                        secret,
                    );
                    let step = model_put(CACHE_SIZE as nat, old_partial.recency(), old_partial@, h, meta);
                    &&& new_partial.recency() == step.0
                    &&& new_partial@ == step.1
                    &&& new_partial@.contains_key(h)
                    &&& new_partial@[h] == meta
                    &&& if old_partial@.contains_key(h) {
                        &&& r == Err::<Admission, _>(PacketProcessorError::DuplicatePacket)
                        &&& new_stats == bumped(old_stats, Counter::DuplicatePackets)
                        &&& new_partial@ == old_partial@.insert(h, meta)
                    } else {
                        &&& r == Ok::<_, PacketProcessorError>(
                            Admission {
                                sig_key: sig_key(tx.signatures@[0]@),
                                packet_hash: h,
                                ipv4: ipv4_key(octets),
                                meta,
                            },
                        )
                        &&& new_stats == bumped(old_stats, Counter::Admitted)
                    }
                },
            }
        },
    }
}

/// A packet admitted once is a duplicate when the same packet, read the
/// same way, comes again: only its first copy gets through.
pub proof fn lemma_second_copy_is_duplicate<const SIG_CACHE_SIZE: usize, const CACHE_SIZE: usize>(
    packet: Packet,
    parsed: ParseOutcome,
    recent_signatures: Option<&LRUCache<u64, (), SIG_CACHE_SIZE>>,
    c0: LRUCache<u64, QoSPartialMeta, CACHE_SIZE>,
    c1: LRUCache<u64, QoSPartialMeta, CACHE_SIZE>,
    c2: LRUCache<u64, QoSPartialMeta, CACHE_SIZE>,
    s0: Stats,
    s1: Stats,
    s2: Stats,
    secret: Seq<u8>,
    first: Result<Admission, PacketProcessorError>,
    second: Result<Admission, PacketProcessorError>,
)
    requires
        processed(packet, parsed, recent_signatures, c0, c1, s0, s1, secret, first),
        first is Ok,
        processed(packet, parsed, recent_signatures, c1, c2, s1, s2, secret, second),
    ensures
        second == Err::<Admission, _>(PacketProcessorError::DuplicatePacket),
        s2.duplicate_packets == inc(s1.duplicate_packets),
{
}

/// A packet whose first signature is among the recent signatures is never
/// admitted.
pub proof fn lemma_recent_never_admitted<const SIG_CACHE_SIZE: usize, const CACHE_SIZE: usize>(
    packet: Packet,
    parsed: ParseOutcome,
    rs: &LRUCache<u64, (), SIG_CACHE_SIZE>,
    c0: LRUCache<u64, QoSPartialMeta, CACHE_SIZE>,
    c1: LRUCache<u64, QoSPartialMeta, CACHE_SIZE>,
    s0: Stats,
    s1: Stats,
    secret: Seq<u8>,
    r: Result<Admission, PacketProcessorError>,
)
    requires
        processed(packet, parsed, Some(rs), c0, c1, s0, s1, secret, r),
    ensures
        r matches Ok(a) ==> !rs@.contains_key(a.sig_key),
{
}

/// Flag of a packet whose payload is not to be read.
pub const DISCARD: u8 = 1;

/// `parsed` is what reading the payload of `packet` gives: nothing for a
/// packet flagged as discarded, else the transaction its first `size`
/// bytes frame.
pub open spec fn read_as(packet: Packet, parsed: ParseOutcome) -> bool {
    if packet.meta.flags & DISCARD != 0 {
        parsed is NotTransaction
    } else {
        describes(packet.buffer@.subrange(0, packet.meta.size as int), parsed)
    }
}

/// The admission rules on `packet` as read into `parsed` (where a read
/// happens: an IPv4 packet within the size limit).
pub open spec fn read_and_processed<const SIG_CACHE_SIZE: usize, const CACHE_SIZE: usize>(
    packet: Packet,
    parsed: ParseOutcome,
    recent_signatures: Option<&LRUCache<u64, (), SIG_CACHE_SIZE>>,
    old_partial: LRUCache<u64, QoSPartialMeta, CACHE_SIZE>,
    new_partial: LRUCache<u64, QoSPartialMeta, CACHE_SIZE>,
    old_stats: Stats,
    new_stats: Stats,
    secret: Seq<u8>,
    r: Result<Admission, PacketProcessorError>,
) -> bool {
    &&& (packet.meta.addr is V4 && packet.meta.size <= PACKET_DATA_SIZE) ==> read_as(packet, parsed)
    &&& processed(packet, parsed, recent_signatures, old_partial, new_partial, old_stats, new_stats, secret, r)
}

/// Two identical packets, each read from its own bytes: when the first is
/// admitted, the second is a duplicate and only the duplicate counter
/// moves; its cache entry stays.
pub proof fn lemma_identical_packets_once<const SIG_CACHE_SIZE: usize, const CACHE_SIZE: usize>(
    packet: Packet,
    first_read: ParseOutcome,
    second_read: ParseOutcome,
    recent_signatures: Option<&LRUCache<u64, (), SIG_CACHE_SIZE>>,
    c0: LRUCache<u64, QoSPartialMeta, CACHE_SIZE>,
    c1: LRUCache<u64, QoSPartialMeta, CACHE_SIZE>,
    c2: LRUCache<u64, QoSPartialMeta, CACHE_SIZE>,
    s0: Stats,
    s1: Stats,
    s2: Stats,
    secret: Seq<u8>,
    first: Result<Admission, PacketProcessorError>,
    second: Result<Admission, PacketProcessorError>,
)
    requires
        read_and_processed(packet, first_read, recent_signatures, c0, c1, s0, s1, secret, first),
        first is Ok,
        read_and_processed(packet, second_read, recent_signatures, c1, c2, s1, s2, secret, second),
    ensures
        second == Err::<Admission, _>(PacketProcessorError::DuplicatePacket),
        s2 == bumped(s1, Counter::DuplicatePackets),
        c2@.dom() == c1@.dom(),
{
    if let IpAddress::V4(octets) = packet.meta.addr {
        if let ParseOutcome::Valid(t1) = first_read {
            if let ParseOutcome::Valid(t2) = second_read {
                assert(signatures_view(t1.signatures@).len() == t1.signatures@.len());
                assert(signatures_view(t2.signatures@).len() == t2.signatures@.len());
                assert(keys_view(t1.static_account_keys@).len() == t1.static_account_keys@.len());
                assert(keys_view(t2.static_account_keys@).len() == t2.static_account_keys@.len());
                assert(t2.signatures@[0]@ == signatures_view(t2.signatures@)[0]);
                assert(t1.signatures@[0]@ == signatures_view(t1.signatures@)[0]);
                let h = xxh3_64_of(hash_input(packet.buffer@, packet.meta.size, octets), secret);
                assert(c1@.contains_key(h));
                assert(c2@.dom() =~= c1@.dom());
            }
        }
    }
}

/// Reads the payload of a packet as a transaction.
pub fn read_payload(packet: &Packet) -> (r: ParseOutcome)
    requires
        packet.meta.size <= PACKET_DATA_SIZE,
    ensures
        read_as(*packet, r),
{
    if packet.meta.flags & DISCARD != 0 {
        return ParseOutcome::NotTransaction;
    }
    let data = vstd::slice::slice_subrange(packet.buffer.as_slice(), 0, packet.meta.size);
    read_transaction(data)
}

/// Applies the admission rules to one packet (see `processed`), reading its
/// payload; a source whose payload does not frame a transaction has its
/// score replaced by `penalty` of it.
pub fn try_process_packet<F: Fn(u64) -> u64, const SIG_CACHE_SIZE: usize, const CACHE_SIZE: usize>(
    packet: &Packet,
    recent_signatures: Option<&LRUCache<u64, (), SIG_CACHE_SIZE>>,
    qos_model: &mut IpSignerModel,
    penalty: F,
    qos_tx_partial_metas: &mut LRUCache<u64, QoSPartialMeta, CACHE_SIZE>,
    stats: &mut Stats,
    xxhasher: &xxHasher,
) -> (r: Result<Admission, PacketProcessorError>)
    requires
        old(qos_tx_partial_metas).inv(),
        recent_signatures matches Some(rs) ==> rs.inv(),
        old(qos_model).inv(),
        forall|x: u64| #[trigger] penalty.requires((x,)),
    ensures
        final(qos_tx_partial_metas).inv(),
        final(qos_model).inv(),
        exists|parsed: ParseOutcome|
            #[trigger] read_and_processed(
                *packet,
                parsed,
                recent_signatures,
                *old(qos_tx_partial_metas),
                *final(qos_tx_partial_metas),
                *old(stats),
                *final(stats),
                xxhasher.secret(),
                r,
            ),
        r == Err::<Admission, _>(PacketProcessorError::FailedTransactionView) ==> (
        packet.meta.addr matches IpAddress::V4(o) && penalized(
            *old(qos_model),
            *final(qos_model),
            ipv4_key(o),
            penalty,
        )),
        r != Err::<Admission, _>(PacketProcessorError::FailedTransactionView) ==> *final(qos_model)
            == *old(qos_model),
{
    let parsed = match packet.meta.addr {
        IpAddress::V4(o) => if packet.meta.size <= PACKET_DATA_SIZE {
            read_payload(packet)
        } else {
            ParseOutcome::NotTransaction
        },
        IpAddress::V6(_) => ParseOutcome::NotTransaction,
    };
    let r = process_parsed_packet(packet, &parsed, recent_signatures, qos_tx_partial_metas, stats, xxhasher);
    proof {
        let w = parsed;
        assert((packet.meta.addr is V4 && packet.meta.size <= PACKET_DATA_SIZE) ==> read_as(*packet, w));
        assert(read_and_processed(
            *packet,
            w,
            recent_signatures,
            *old(qos_tx_partial_metas),
            *qos_tx_partial_metas,
            *old(stats),
            *stats,
            xxhasher.secret(),
            r,
        ));
    }
    match r {
        Err(PacketProcessorError::FailedTransactionView) => {
            match packet.meta.addr {
                IpAddress::V4(o) => {
                    qos_model.ip_feedback(ipv4_to_key(o), penalty);
                },
                IpAddress::V6(_) => {},
            }
        },
        _ => {},
    }
    r
}

/// Applies the admission rules to a packet whose payload was read as
/// `parsed` (see `processed`).
pub fn process_parsed_packet<const SIG_CACHE_SIZE: usize, const CACHE_SIZE: usize>(
    packet: &Packet,
    parsed: &ParseOutcome,
    recent_signatures: Option<&LRUCache<u64, (), SIG_CACHE_SIZE>>,
    qos_tx_partial_metas: &mut LRUCache<u64, QoSPartialMeta, CACHE_SIZE>,
    stats: &mut Stats,
    xxhasher: &xxHasher,
) -> (r: Result<Admission, PacketProcessorError>)
    requires
        old(qos_tx_partial_metas).inv(),
        recent_signatures matches Some(rs) ==> rs.inv(),
    ensures
        final(qos_tx_partial_metas).inv(),
        processed(
            *packet,
            *parsed,
            recent_signatures,
            *old(qos_tx_partial_metas),
            *final(qos_tx_partial_metas),
            *old(stats),
            *final(stats),
            xxhasher.secret(),
            r,
        ),
{
    let octets = match packet.meta.addr {
        IpAddress::V4(o) => o,
        IpAddress::V6(_) => {
            stats.count(Counter::NonIpv4);
            return Err(PacketProcessorError::AddrNotIpv4);
        },
    };
    if packet.meta.size > PACKET_DATA_SIZE {
        stats.count(Counter::InvalidMetaSize);
        return Err(PacketProcessorError::InvalidMetadata);
    }
    let tx = match parsed {
        ParseOutcome::Valid(tx) => tx,
        ParseOutcome::Malformed => {
            stats.count(Counter::FailedView);
            return Err(PacketProcessorError::FailedTransactionView);
        },
        ParseOutcome::NotTransaction => {
            stats.count(Counter::InvalidPacketData);
            return Err(PacketProcessorError::NonTransactionPacket);
        },
        ParseOutcome::Unsanitized => {
            stats.count(Counter::FailedSanitize);
            return Err(PacketProcessorError::FailedSanitize);
        },
    };
    if tx.signatures.len() == 0 {
        stats.count(Counter::InvalidPacketData);
        return Err(PacketProcessorError::InvalidMetadata);
    }
    let key = u64_key(&tx.signatures[0]);
    match recent_signatures {
        Some(rs) => {
            if rs.contains(key) {
                stats.count(Counter::RecentlyProcessed);
                return Err(PacketProcessorError::RecentlyProcessed);
            }
        },
        None => {},
    }
    if tx.static_account_keys.len() == 0 {
        stats.count(Counter::InvalidPacketData);
        return Err(PacketProcessorError::InvalidMetadata);
    }
    let fee = total_fee(tx.signatures.len(), &tx.static_account_keys, &tx.instructions);
    let meta = QoSPartialMeta::new(octets, tx.static_account_keys[0], fee.total_fee, fee.requested_cus);
    let h = xxhasher.packet_hash(packet, octets);
    let ghost before = *qos_tx_partial_metas;
    proof {
        before.lemma_sizes();
    }
    let (_evicted, duplicate) = qos_tx_partial_metas.put(h, meta);
    if duplicate {
        stats.count(Counter::DuplicatePackets);
        return Err(PacketProcessorError::DuplicatePacket);
    }
    stats.count(Counter::Admitted);
    Ok(Admission { sig_key: key, packet_hash: h, ipv4: ipv4_to_key(octets), meta })
}

/// Records a signature reported as recently processed.
pub fn consume_recent_signature<const SIG_CACHE_SIZE: usize>(
    recent_signatures: &mut LRUCache<u64, (), SIG_CACHE_SIZE>,
    signature: &[u8; 64],
    stats: &mut Stats,
)
    requires
        old(recent_signatures).inv(),
    ensures
        final(recent_signatures).inv(),
        final(recent_signatures)@.contains_key(sig_key(signature@)),
        final(recent_signatures).recency() == model_put(
            SIG_CACHE_SIZE as nat,
            old(recent_signatures).recency(),
            old(recent_signatures)@,
            sig_key(signature@),
            (),
        ).0,
        final(recent_signatures)@ == model_put(
            SIG_CACHE_SIZE as nat,
            old(recent_signatures).recency(),
            old(recent_signatures)@,
            sig_key(signature@),
            (),
        ).1,
        *final(stats) == (Stats {
            recent_signatures_received: inc(old(stats).recent_signatures_received),
            ..*old(stats)
        }),
{
    let ghost before = *recent_signatures;
    proof {
        before.lemma_sizes();
    }
    recent_signatures.put(u64_key(signature), ());
    stats.recent_signatures_received = stats.recent_signatures_received.saturating_add(1);
}

/// The recency order after popping `k`: without `k`, others in order.
pub open spec fn left_after_pop(rec: Seq<u64>, k: u64) -> Seq<u64> {
    if rec.contains(k) {
        rec.remove(rec.index_of(k))
    } else {
        rec
    }
}

/// Completes a transaction with the scheduler's report when its partial
/// metadata is still cached (the entry leaves the cache); an orphaned
/// report gives `None`.
pub fn complete_meta<const CACHE_SIZE: usize>(
    qos_tx_partial_metas: &mut LRUCache<u64, QoSPartialMeta, CACHE_SIZE>,
    remaining_meta: QoSRemainingMeta,
    stats: &mut Stats,
) -> (r: Option<QoSTransactionMeta>)
    requires
        old(qos_tx_partial_metas).inv(),
    ensures
        final(qos_tx_partial_metas).inv(),
        final(qos_tx_partial_metas)@ == old(qos_tx_partial_metas)@.remove(remaining_meta.packet_hash),
        final(qos_tx_partial_metas).recency() == left_after_pop(old(qos_tx_partial_metas).recency(), remaining_meta.packet_hash),
        old(qos_tx_partial_metas)@.contains_key(remaining_meta.packet_hash) ==> {
            &&& r == Some(merged(old(qos_tx_partial_metas)@[remaining_meta.packet_hash], remaining_meta))
            &&& *final(stats) == (Stats { completed: inc(old(stats).completed), ..*old(stats) })
        },
        !old(qos_tx_partial_metas)@.contains_key(remaining_meta.packet_hash) ==> {
            &&& r is None
            &&& *final(stats) == *old(stats)
        },
{
    proof {
        qos_tx_partial_metas.lemma_sizes();
        let rec = qos_tx_partial_metas.recency();
        if rec.contains(remaining_meta.packet_hash) {
            let i = choose|i: int| 0 <= i < rec.len() && rec[i] == remaining_meta.packet_hash;
            assert(qos_tx_partial_metas@.contains_key(rec[i]));
        }
    }
    match qos_tx_partial_metas.pop(&remaining_meta.packet_hash) {
        Some((_hash, partial_meta)) => {
            stats.completed = stats.completed.saturating_add(1);
            Some(partial_meta.merge(remaining_meta))
        },
        None => None,
    }
}

/// Completed transactions gathered before the model learns from them.
pub const UPDATE_BATCH: usize = 400;

/// Completes a scheduler report into `batch` (see `complete_meta`) and
/// tells whether the batch is due for the model: `UPDATE_BATCH` or more
/// completed transactions.
pub fn collect_completed<const CACHE_SIZE: usize>(
    qos_tx_partial_metas: &mut LRUCache<u64, QoSPartialMeta, CACHE_SIZE>,
    remaining_meta: QoSRemainingMeta,
    stats: &mut Stats,
    batch: &mut Vec<QoSTransactionMeta>,
) -> (due: bool)
    requires
        old(qos_tx_partial_metas).inv(),
    ensures
        final(qos_tx_partial_metas).inv(),
        final(qos_tx_partial_metas)@ == old(qos_tx_partial_metas)@.remove(remaining_meta.packet_hash),
        final(qos_tx_partial_metas).recency() == left_after_pop(old(qos_tx_partial_metas).recency(), remaining_meta.packet_hash),
        old(qos_tx_partial_metas)@.contains_key(remaining_meta.packet_hash) ==> {
            &&& final(batch)@ == old(batch)@.push(
                merged(old(qos_tx_partial_metas)@[remaining_meta.packet_hash], remaining_meta),
            )
            &&& *final(stats) == (Stats { completed: inc(old(stats).completed), ..*old(stats) })
        },
        !old(qos_tx_partial_metas)@.contains_key(remaining_meta.packet_hash) ==> {
            &&& final(batch)@ == old(batch)@
            &&& *final(stats) == *old(stats)
        },
        due == (final(batch)@.len() >= UPDATE_BATCH),
{
    match complete_meta(qos_tx_partial_metas, remaining_meta, stats) {
        Some(done) => batch.push(done),
        None => {},
    }
    batch.len() >= UPDATE_BATCH
}

/// The address key of a packet that failed signature verification; only
/// IPv4 packets are ever forwarded, so another address gives `None`.
pub fn failed_sigverify_ip(packet: &Packet) -> (r: Option<u32>)
    ensures
        r == match packet.meta.addr {
            IpAddress::V4(o) => Some(ipv4_key(o)),
            IpAddress::V6(_) => None,
        },
{
    match packet.meta.addr {
        IpAddress::V4(o) => Some(ipv4_to_key(o)),
        IpAddress::V6(_) => None,
    }
}

} // verus!
