//! Packets as the stage receives them, the key folded from a signature,
//! and the seeded hash that identifies a packet.
use vstd::prelude::*;

verus! {

/// Bytes of payload a packet can carry.
pub const PACKET_DATA_SIZE: usize = 1232;

/// Bytes of a packet on the wire between stages: payload plus metadata.
pub const PACKET_SIZE: usize = 1264;

/// Bytes of a secret derived from a hash seed.
pub const SECRET_SIZE: usize = 192;

/// Source address of a packet.
#[derive(Clone, Copy)]
pub enum IpAddress {
    /// The four octets in network order.
    V4([u8; 4]),
    V6([u8; 16]),
}

/// Metadata carried beside the payload.
#[derive(Clone, Copy)]
pub struct Meta {
    /// Length of the payload; authoritative.
    pub size: usize,
    pub addr: IpAddress,
    pub port: u16,
    pub flags: u8,
}

/// A received packet.
#[derive(Clone, Copy)]
pub struct Packet {
    pub buffer: [u8; PACKET_DATA_SIZE],
    pub meta: Meta,
}

/// A packet as fixed-size bytes, the form it takes in a ring.
#[derive(Clone, Copy)]
pub struct PacketBytes(pub [u8; PACKET_SIZE]);

impl PacketBytes {
    pub fn new(bytes: [u8; PACKET_SIZE]) -> (r: PacketBytes)
        ensures
            r.0 == bytes,
    {
        PacketBytes(bytes)
    }
}

impl Default for PacketBytes {
    fn default() -> (r: PacketBytes)
        ensures
            forall|i: int| 0 <= i < PACKET_SIZE ==> r.0@[i] == 0,
    {
        PacketBytes([0u8; PACKET_SIZE])
    }
}

/// The address as the host-order integer the model keys on: the octets
/// read little-endian.
pub open spec fn ipv4_key(octets: [u8; 4]) -> u32 {
    (octets[0] as u32) | ((octets[1] as u32) << 8u32) | ((octets[2] as u32) << 16u32) | ((
    octets[3] as u32) << 24u32)
}

pub fn ipv4_to_key(octets: [u8; 4]) -> (r: u32)
    ensures
        r == ipv4_key(octets),
{
    (octets[0] as u32) | ((octets[1] as u32) << 8u32) | ((octets[2] as u32) << 16u32) | ((
    octets[3] as u32) << 24u32)
}

/// Lane `j` of a signature: bytes `8j .. 8j + 8` read little-endian.
pub open spec fn lane(s: Seq<u8>, j: int) -> u64 {
    (s[8 * j] as u64) | ((s[8 * j + 1] as u64) << 8u64) | ((s[8 * j + 2] as u64) << 16u64) | ((
    s[8 * j + 3] as u64) << 24u64) | ((s[8 * j + 4] as u64) << 32u64) | ((s[8 * j + 5] as u64)
        << 40u64) | ((s[8 * j + 6] as u64) << 48u64) | ((s[8 * j + 7] as u64) << 56u64)
}

/// The eight lanes of a signature folded by exclusive or.
pub open spec fn sig_key(s: Seq<u8>) -> u64 {
    lane(s, 0) ^ lane(s, 1) ^ lane(s, 2) ^ lane(s, 3) ^ lane(s, 4) ^ lane(s, 5) ^ lane(s, 6)
        ^ lane(s, 7)
}

fn read_lane(s: &[u8; 64], j: usize) -> (r: u64)
    requires
        j < 8,
    ensures
        r == lane(s@, j as int),
{
    let b = 8 * j;
    (s[b] as u64) | ((s[b + 1] as u64) << 8u64) | ((s[b + 2] as u64) << 16u64) | ((s[b + 3]
        as u64) << 24u64) | ((s[b + 4] as u64) << 32u64) | ((s[b + 5] as u64) << 40u64) | ((s[b
        + 6] as u64) << 48u64) | ((s[b + 7] as u64) << 56u64)
}

/// Folds a 64-byte signature to the 64-bit key of the recent-signature
/// filter. Distinct signatures may share a key.
pub fn u64_key(signature: &[u8; 64]) -> (r: u64)
    ensures
        r == sig_key(signature@),
{
    read_lane(signature, 0) ^ read_lane(signature, 1) ^ read_lane(signature, 2) ^ read_lane(
        signature,
        3,
    ) ^ read_lane(signature, 4) ^ read_lane(signature, 5) ^ read_lane(signature, 6) ^ read_lane(
        signature,
        7,
    )
}

/// The eight bytes of `x`, least significant first.
pub open spec fn le_bytes(x: u64) -> Seq<u8> {
    seq![
        x as u8,
        (x >> 8u64) as u8,
        (x >> 16u64) as u8,
        (x >> 24u64) as u8,
        (x >> 32u64) as u8,
        (x >> 40u64) as u8,
        (x >> 48u64) as u8,
        (x >> 56u64) as u8,
    ]
}

/// What a packet's hash is computed over: the payload, its length as
/// eight little-endian bytes, and the four octets of the source address.
pub open spec fn hash_input(payload: Seq<u8>, size: usize, octets: [u8; 4]) -> Seq<u8> {
    payload.subrange(0, size as int) + le_bytes(size as u64) + octets@
}

/// The hash input of a packet is determined by its payload up to `size`,
/// `size` and its address, and determines them: two inputs are equal
/// exactly when those three agree. Port and flags are not part of it.
pub proof fn lemma_hash_input_identifies(
    p1: Seq<u8>,
    s1: usize,
    o1: [u8; 4],
    p2: Seq<u8>,
    s2: usize,
    o2: [u8; 4],
)
    requires
        s1 <= p1.len(),
        s2 <= p2.len(),
    ensures
        hash_input(p1, s1, o1) == hash_input(p2, s2, o2) <==> (s1 == s2 && p1.subrange(0, s1 as int)
            == p2.subrange(0, s2 as int) && o1@ == o2@),
{
    let a = hash_input(p1, s1, o1);
    let b = hash_input(p2, s2, o2);
    if a == b {
        assert(a.len() == s1 + 12 && b.len() == s2 + 12);
        assert(p1.subrange(0, s1 as int) =~= a.subrange(0, s1 as int));
        assert(p2.subrange(0, s2 as int) =~= b.subrange(0, s2 as int));
        assert(o1@ =~= a.subrange(s1 + 8, s1 + 12));
        assert(o2@ =~= b.subrange(s2 + 8, s2 + 12));
    }
}

/// A hasher gives equal packets (payload up to `size`, `size`, address)
/// equal hashes, whatever their ports and flags.
pub proof fn lemma_packet_hash_stable(h: xxHasher, a: Packet, b: Packet, oa: [u8; 4], ob: [u8; 4])
    requires
        a.meta.size <= PACKET_DATA_SIZE,
        b.meta.size == a.meta.size,
        a.buffer@.subrange(0, a.meta.size as int) == b.buffer@.subrange(0, b.meta.size as int),
        oa@ == ob@,
    ensures
        xxh3_64_of(hash_input(a.buffer@, a.meta.size, oa), h.secret()) == xxh3_64_of(
            hash_input(b.buffer@, b.meta.size, ob),
            h.secret(),
        ),
{
    lemma_hash_input_identifies(a.buffer@, a.meta.size, oa, b.buffer@, b.meta.size, ob);
}

/// The secret that `xxhash_rust` derives from a seed.
pub uninterp spec fn xxh3_secret(seed: u64) -> Seq<u8>;

/// The 64-bit XXH3 hash of `input` under `secret`.
pub uninterp spec fn xxh3_64_of(input: Seq<u8>, secret: Seq<u8>) -> u64;

/// Relies on xxhash_rust::const_xxh3::const_custom_default_secret: the
/// 192-byte secret is a function of the seed.
#[verifier::external_body]
fn derive_secret(seed: u64) -> (r: [u8; SECRET_SIZE])
    ensures
        r@ == xxh3_secret(seed),
{
    xxhash_rust::const_xxh3::const_custom_default_secret(seed)
}

/// Relies on xxhash_rust::xxh3::xxh3_64_with_secret: the hash is a function
/// of input and secret; it panics only on a secret under 136 bytes.
#[verifier::external_body]
fn xxh3_64(input: &[u8], secret: &[u8; SECRET_SIZE]) -> (r: u64)
    ensures
        r == xxh3_64_of(input@, secret@),
{
    xxhash_rust::xxh3::xxh3_64_with_secret(input, secret)
}

/// Seeded XXH3 hasher.
#[allow(non_camel_case_types)]
pub struct xxHasher {
    secret: [u8; SECRET_SIZE],
}

impl xxHasher {
    /// The secret this hasher uses.
    pub closed spec fn secret(&self) -> Seq<u8> {
        self.secret@
    }

    pub fn initialize_with_seed(seed: u64) -> (r: xxHasher)
        ensures
            r.secret() == xxh3_secret(seed),
    {
        xxHasher { secret: derive_secret(seed) }
    }

    pub fn hash(&self, input: &[u8]) -> (r: u64)
        ensures
            r == xxh3_64_of(input@, self.secret()),
    {
        xxh3_64(input, &self.secret)
    }

    /// Hash of a packet's payload, payload length and source address;
    /// port and flags take no part.
    pub fn packet_hash(&self, packet: &Packet, octets: [u8; 4]) -> (r: u64)
        requires
            packet.meta.size <= PACKET_DATA_SIZE,
        ensures
            r == xxh3_64_of(hash_input(packet.buffer@, packet.meta.size, octets), self.secret()),
    {
        let size = packet.meta.size;
        let mut input: Vec<u8> = Vec::with_capacity(size + 12);
        let mut i: usize = 0;
        while i < size
            invariant
                size == packet.meta.size,
                size <= PACKET_DATA_SIZE,
                i <= size,
                input@ == packet.buffer@.subrange(0, i as int),
            decreases size - i,
        {
            input.push(packet.buffer[i]);
            i = i + 1;
            proof {
                assert(input@ =~= packet.buffer@.subrange(0, i as int));
            }
        }
        let s = size as u64;
        input.push(s as u8);
        input.push((s >> 8u64) as u8);
        input.push((s >> 16u64) as u8);
        input.push((s >> 24u64) as u8);
        input.push((s >> 32u64) as u8);
        input.push((s >> 40u64) as u8);
        input.push((s >> 48u64) as u8);
        input.push((s >> 56u64) as u8);
        input.push(octets[0]);
        input.push(octets[1]);
        input.push(octets[2]);
        input.push(octets[3]);
        proof {
            assert(input@ =~= hash_input(packet.buffer@, size, octets));
        }
        self.hash(input.as_slice())
    }
}

} // verus!
