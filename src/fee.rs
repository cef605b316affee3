//! Fee a transaction offers, read from its compute-budget instructions.
use vstd::prelude::*;

verus! {

/// Address of the compute-budget program.
pub const COMPUTE_BUDGET_ID: [u8; 32] = [
    3, 6, 70, 111, 229, 33, 23, 50, 255, 236, 173, 186, 114, 195, 155, 231, 188, 140, 229, 187,
    197, 247, 18, 107, 44, 67, 155, 58, 64, 0, 0, 0,
];

/// Opcode of the instruction that sets the compute-unit limit.
pub const SET_CU_LIMIT: u8 = 2;

/// Opcode of the instruction that sets the compute-unit price.
pub const SET_CU_PRICE: u8 = 3;

/// Compute-budget instructions looked at for settings.
pub const MAX_BUDGET_INSTRUCTIONS: usize = 8;

/// Compute units assumed when none are requested.
pub const DEFAULT_CUS: u32 = 200_000;

/// Fee charged for each signature.
pub const SIGNATURE_FEE: u64 = 5000;

/// One instruction of a transaction: the index of its program among the
/// static account keys, and its data.
pub struct InstructionRef {
    pub program_id_index: u8,
    pub data: Vec<u8>,
}

pub struct CaveyTransactionFee {
    pub cu_price: u64,
    pub total_fee: u64,
    pub requested_cus: u32,
}

/// The instruction calls the compute-budget program.
pub open spec fn is_budget(keys: Seq<[u8; 32]>, ix: InstructionRef) -> bool {
    &&& (ix.program_id_index as int) < keys.len()
    &&& keys[ix.program_id_index as int]@ == COMPUTE_BUDGET_ID@
}

/// A compute-budget instruction that sets the unit limit.
pub open spec fn is_limit(keys: Seq<[u8; 32]>, ix: InstructionRef) -> bool {
    is_budget(keys, ix) && ix.data@.len() == 5 && ix.data@[0] == SET_CU_LIMIT
}

/// A compute-budget instruction that sets the unit price.
pub open spec fn is_price(keys: Seq<[u8; 32]>, ix: InstructionRef) -> bool {
    is_budget(keys, ix) && ix.data@.len() == 9 && ix.data@[0] == SET_CU_PRICE
}

/// Four bytes from `at`, little-endian.
pub open spec fn le_u32(d: Seq<u8>, at: int) -> u32 {
    (d[at] as u32) | ((d[at + 1] as u32) << 8u32) | ((d[at + 2] as u32) << 16u32) | ((d[at + 3]
        as u32) << 24u32)
}

/// Eight bytes from `at`, little-endian.
pub open spec fn le_u64(d: Seq<u8>, at: int) -> u64 {
    (d[at] as u64) | ((d[at + 1] as u64) << 8u64) | ((d[at + 2] as u64) << 16u64) | ((d[at + 3]
        as u64) << 24u64) | ((d[at + 4] as u64) << 32u64) | ((d[at + 5] as u64) << 40u64) | ((
    d[at + 6] as u64) << 48u64) | ((d[at + 7] as u64) << 56u64)
}

/// The unit limit set by the first limit instruction, looking from
/// instruction `i` on, `seen` compute-budget instructions having been
/// looked at before it; only the first eight of those count.
pub open spec fn limit_from(keys: Seq<[u8; 32]>, ixs: Seq<InstructionRef>, i: int, seen: nat) -> Option<u32>
    decreases ixs.len() - i,
{
    if i < 0 || i >= ixs.len() || seen >= MAX_BUDGET_INSTRUCTIONS {
        None
    } else if is_limit(keys, ixs[i]) {
        Some(le_u32(ixs[i].data@, 1))
    } else if is_budget(keys, ixs[i]) {
        limit_from(keys, ixs, i + 1, seen + 1)
    } else {
        limit_from(keys, ixs, i + 1, seen)
    }
}

/// The unit price set by the first price instruction, looking as
/// `limit_from` does.
pub open spec fn price_from(keys: Seq<[u8; 32]>, ixs: Seq<InstructionRef>, i: int, seen: nat) -> Option<u64>
    decreases ixs.len() - i,
{
    if i < 0 || i >= ixs.len() || seen >= MAX_BUDGET_INSTRUCTIONS {
        None
    } else if is_price(keys, ixs[i]) {
        Some(le_u64(ixs[i].data@, 1))
    } else if is_budget(keys, ixs[i]) {
        price_from(keys, ixs, i + 1, seen + 1)
    } else {
        price_from(keys, ixs, i + 1, seen)
    }
}

/// Requested compute units, or the default.
pub open spec fn requested_cus_of(keys: Seq<[u8; 32]>, ixs: Seq<InstructionRef>) -> u32 {
    match limit_from(keys, ixs, 0, 0) {
        Some(v) => v,
        None => DEFAULT_CUS,
    }
}

/// Price per compute unit in micro-lamports, or zero.
pub open spec fn cu_price_of(keys: Seq<[u8; 32]>, ixs: Seq<InstructionRef>) -> u64 {
    match price_from(keys, ixs, 0, 0) {
        Some(v) => v,
        None => 0,
    }
}

/// `5000` per signature plus units times price over a million, each part
/// and the sum held at `u64::MAX`.
pub open spec fn fee_of(signature_count: nat, cus: u32, price: u64) -> u64 {
    let sigs = SIGNATURE_FEE * signature_count;
    let prio = (cus as int) * (price as int) / 1_000_000;
    let prio = if prio > u64::MAX { u64::MAX as int } else { prio };
    if sigs + prio > u64::MAX {
        u64::MAX
    } else {
        (sigs + prio) as u64
    }
}

fn same_key(a: &[u8; 32], b: &[u8; 32]) -> (r: bool)
    ensures
        r == (a@ == b@),
{
    let mut i: usize = 0;
    while i < 32
        invariant
            i <= 32,
            forall|j: int| 0 <= j < i ==> a@[j] == b@[j],
        decreases 32 - i,
    {
        if a[i] != b[i] {
            return false;
        }
        i = i + 1;
    }
    proof {
        assert(a@ =~= b@);
    }
    true
}

fn calls_budget_program(keys: &Vec<[u8; 32]>, ix: &InstructionRef) -> (r: bool)
    ensures
        r == is_budget(keys@, *ix),
{
    let i = ix.program_id_index as usize;
    if i < keys.len() {
        same_key(&keys[i], &COMPUTE_BUDGET_ID)
    } else {
        false
    }
}

/// The fee a transaction offers, from its signature count and the first
/// eight of its compute-budget instructions. Of repeated limit or price
/// instructions the first counts.
pub fn total_fee(signature_count: usize, keys: &Vec<[u8; 32]>, ixs: &Vec<InstructionRef>) -> (r:
    CaveyTransactionFee)
    ensures
        r.requested_cus == requested_cus_of(keys@, ixs@),
        r.cu_price == cu_price_of(keys@, ixs@),
        r.total_fee == fee_of(signature_count as nat, r.requested_cus, r.cu_price),
{
    let mut limit: Option<u32> = None;
    let mut price: Option<u64> = None;
    let mut seen: usize = 0;
    let mut i: usize = 0;
    while i < ixs.len() && seen < MAX_BUDGET_INSTRUCTIONS
        invariant
            i <= ixs@.len(),
            seen <= MAX_BUDGET_INSTRUCTIONS,
            limit is Some ==> limit == limit_from(keys@, ixs@, 0, 0),
            limit is None ==> limit_from(keys@, ixs@, 0, 0) == limit_from(keys@, ixs@, i as int, seen as nat),
            price is Some ==> price == price_from(keys@, ixs@, 0, 0),
            price is None ==> price_from(keys@, ixs@, 0, 0) == price_from(keys@, ixs@, i as int, seen as nat),
        decreases ixs@.len() - i,
    {
        let ix = &ixs[i];
        if calls_budget_program(keys, ix) {
            let d = &ix.data;
            if d.len() == 5 && d[0] == SET_CU_LIMIT {
                if limit.is_none() {
                    limit = Some(
                        (d[1] as u32) | ((d[2] as u32) << 8u32) | ((d[3] as u32) << 16u32) | ((d[4]
                            as u32) << 24u32),
                    );
                }
            } else if d.len() == 9 && d[0] == SET_CU_PRICE {
                if price.is_none() {
                    price = Some(
                        (d[1] as u64) | ((d[2] as u64) << 8u64) | ((d[3] as u64) << 16u64) | ((d[4]
                            as u64) << 24u64) | ((d[5] as u64) << 32u64) | ((d[6] as u64) << 40u64)
                            | ((d[7] as u64) << 48u64) | ((d[8] as u64) << 56u64),
                    );
                }
            }
            seen = seen + 1;
        }
        i = i + 1;
    }
    let requested_cus: u32 = match limit {
        Some(v) => v,
        None => DEFAULT_CUS,
    };
    let cu_price: u64 = match price {
        Some(v) => v,
        None => 0,
    };
    let sigs: u128 = SIGNATURE_FEE as u128 * signature_count as u128;
    proof {
        assert((requested_cus as u128) * (cu_price as u128) <= 0xffff_ffff_u128 * 0xffff_ffff_ffff_ffff_u128) by (nonlinear_arith);
    }
    let prio: u128 = requested_cus as u128 * cu_price as u128 / 1_000_000;
    let prio: u128 = if prio > u64::MAX as u128 {
        u64::MAX as u128
    } else {
        prio
    };
    let total: u64 = if sigs + prio > u64::MAX as u128 {
        u64::MAX
    } else {
        (sigs + prio) as u64
    };
    CaveyTransactionFee { cu_price, total_fee: total, requested_cus }
}

} // verus!
