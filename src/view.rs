//! Reading a packet payload as a transaction, through the
//! `agave_transaction_view` crate.
use crate::fee::InstructionRef;
use crate::pipeline::{ParseOutcome, ParsedTransaction};
use agave_transaction_view::transaction_view::TransactionView;
use vstd::prelude::*;

verus! {

/// The bytes frame a transaction.
pub uninterp spec fn tx_readable(data: Seq<u8>) -> bool;

/// The framed transaction passes sanitization.
pub uninterp spec fn tx_sanitized(data: Seq<u8>) -> bool;

/// The signatures of the framed transaction.
pub uninterp spec fn tx_signatures(data: Seq<u8>) -> Seq<Seq<u8>>;

/// The static account keys of the framed transaction.
pub uninterp spec fn tx_account_keys(data: Seq<u8>) -> Seq<Seq<u8>>;

/// Program index and data of each instruction of the framed transaction.
pub uninterp spec fn tx_instructions(data: Seq<u8>) -> Seq<(u8, Seq<u8>)>;

/// Plain-value form of a transaction's signatures.
pub open spec fn signatures_view(v: Seq<[u8; 64]>) -> Seq<Seq<u8>> {
    v.map_values(|s: [u8; 64]| s@)
}

/// Plain-value form of a transaction's account keys.
pub open spec fn keys_view(v: Seq<[u8; 32]>) -> Seq<Seq<u8>> {
    v.map_values(|k: [u8; 32]| k@)
}

/// Plain-value form of a transaction's instructions.
pub open spec fn instructions_view(v: Seq<InstructionRef>) -> Seq<(u8, Seq<u8>)> {
    v.map_values(|ix: InstructionRef| (ix.program_id_index, ix.data@))
}

/// `r` is what reading `data` as a transaction gives.
pub open spec fn describes(data: Seq<u8>, r: ParseOutcome) -> bool {
    match r {
        ParseOutcome::NotTransaction => false,
        ParseOutcome::Malformed => !tx_readable(data),
        ParseOutcome::Unsanitized => tx_readable(data) && !tx_sanitized(data),
        ParseOutcome::Valid(tx) => {
            &&& tx_readable(data)
            &&& tx_sanitized(data)
            &&& signatures_view(tx.signatures@) == tx_signatures(data)
            &&& keys_view(tx.static_account_keys@) == tx_account_keys(data)
            &&& instructions_view(tx.instructions@) == tx_instructions(data)
        },
    }
}

/// Relies on agave_transaction_view's TransactionView (try_new_unsanitized,
/// sanitize, signatures, static_account_keys, instructions_iter): whether
/// the bytes frame a sane transaction, and its parts, depend on the bytes
/// alone.
#[verifier::external_body]
pub(crate) fn read_transaction(data: &[u8]) -> (r: ParseOutcome)
    ensures
        match r {
            ParseOutcome::NotTransaction => false,
            ParseOutcome::Malformed => !tx_readable(data@),
            ParseOutcome::Unsanitized => tx_readable(data@) && !tx_sanitized(data@),
            ParseOutcome::Valid(tx) => {
                &&& tx_readable(data@)
                &&& tx_sanitized(data@)
                &&& signatures_view(tx.signatures@) == tx_signatures(data@)
                &&& keys_view(tx.static_account_keys@) == tx_account_keys(data@)
                &&& instructions_view(tx.instructions@) == tx_instructions(data@)
            },
        },
{
    let view = match TransactionView::try_new_unsanitized(data) {
        Ok(v) => v,
        Err(_) => return ParseOutcome::Malformed,
    };
    let tx = match view.sanitize() {
        Ok(t) => t,
        Err(_) => return ParseOutcome::Unsanitized,
    };
    ParseOutcome::Valid(ParsedTransaction {
        signatures: tx.signatures().iter().map(|s| <[u8; 64]>::from(*s)).collect(),
        static_account_keys: tx.static_account_keys().iter().map(|k| k.to_bytes()).collect(),
        instructions: tx.instructions_iter().map(|ix| InstructionRef { program_id_index: ix.program_id_index, data: ix.data.to_vec() }).collect(),
    })
}

} // verus!
