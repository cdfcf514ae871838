//! The three operations of the synchronization pipeline on in-memory
//! bytes: produce a serialized signature from a basis file, produce a
//! serialized delta from a serialized signature and an updated file, and
//! rebuild the updated file from a basis file and a serialized delta.
//! Reading and writing the files themselves is the caller's business.

use crate::delta::{
    compute_delta_to_our_file, delta_tokens_spec, lemma_delta_tokens_count, Delta,
};
use crate::patch::{apply_delta, delta_fits, patch_spec, tokens_valid};
use crate::signature::{
    compute_signature, num_chunks, sig_rolling_spec, sig_strong_spec, FileSignature,
};
use crate::wire::{delta_dec, delta_enc, sig_dec, sig_enc, DecodeError};
use vstd::prelude::*;

verus! {

/// Why a patch invocation failed.
#[derive(Debug, PartialEq, Eq, Clone, Copy)]
pub enum PatchError {
    /// The delta file is not a valid delta artifact.
    MalformedDelta,
    /// The delta names a basis block that does not exist.
    BlockIndexOutOfRange,
}

/// Computes the serialized signature of a basis file.
///
/// The chunk count is capped at 2^32 - 1 by the wire format's array
/// framing; a caller hands in files within that limit.
pub fn handle_signature_command(file_bytes: &[u8], chunk_size: usize) -> (r: Vec<u8>)
    requires
        chunk_size >= 1,
        num_chunks(file_bytes@.len(), chunk_size as nat) < 0x1_0000_0000,
    ensures
        r@ == sig_enc(
            sig_strong_spec(file_bytes@, chunk_size as nat),
            sig_rolling_spec(file_bytes@, chunk_size as nat),
        ),
{
    let signature = compute_signature(file_bytes, chunk_size);
    signature.to_bytes()
}

/// Computes the serialized delta that turns the basis file summarized by
/// `signature_file_bytes` into `our_file_bytes`. Fails exactly when the
/// signature bytes do not decode.
///
/// The token count is capped at 2^32 - 1 by the wire format's array
/// framing; one token covers at least one byte, so a caller hands in
/// updated files within that limit.
pub fn handle_delta_command(
    signature_file_bytes: &[u8],
    our_file_bytes: &[u8],
    chunk_size: usize,
) -> (r: Result<Vec<u8>, DecodeError>)
    requires
        chunk_size >= 1,
        our_file_bytes@.len() < 0x1_0000_0000,
    ensures
        match r {
            Ok(out) => {
                &&& sig_dec(signature_file_bytes@) is Some
                &&& out@ == delta_enc(
                    delta_tokens_spec(
                        sig_dec(signature_file_bytes@)->Some_0.0,
                        sig_dec(signature_file_bytes@)->Some_0.1,
                        our_file_bytes@,
                        chunk_size as nat,
                    ),
                )
            },
            Err(e) => sig_dec(signature_file_bytes@) is None && e == DecodeError::Signature,
        },
{
    let signature = match FileSignature::from_bytes(signature_file_bytes) {
        Ok(signature) => signature,
        Err(e) => {
            return Err(e);
        },
    };
    let delta = compute_delta_to_our_file(signature, our_file_bytes, chunk_size);
    proof {
        lemma_delta_tokens_count(
            sig_dec(signature_file_bytes@)->Some_0.0,
            sig_dec(signature_file_bytes@)->Some_0.1,
            our_file_bytes@,
            chunk_size as nat,
            0,
        );
    }
    Ok(delta.to_bytes())
}

/// Rebuilds the updated file from the basis file and a serialized delta.
/// Fails exactly when the delta bytes do not decode, or when the delta
/// names a basis block that does not exist under this chunk size.
pub fn handle_patch_command(
    basis_file_bytes: &[u8],
    delta_file_bytes: &[u8],
    chunk_size: usize,
) -> (r: Result<Vec<u8>, PatchError>)
    requires
        chunk_size >= 1,
    ensures
        match r {
            Ok(out) => {
                &&& delta_dec(delta_file_bytes@) is Some
                &&& tokens_valid(
                    delta_dec(delta_file_bytes@)->Some_0,
                    num_chunks(basis_file_bytes@.len(), chunk_size as nat),
                )
                &&& out@ == patch_spec(
                    basis_file_bytes@,
                    delta_dec(delta_file_bytes@)->Some_0,
                    chunk_size as nat,
                )
            },
            Err(PatchError::MalformedDelta) => delta_dec(delta_file_bytes@) is None,
            Err(PatchError::BlockIndexOutOfRange) => {
                &&& delta_dec(delta_file_bytes@) is Some
                &&& !tokens_valid(
                    delta_dec(delta_file_bytes@)->Some_0,
                    num_chunks(basis_file_bytes@.len(), chunk_size as nat),
                )
            },
        },
{
    let delta = match Delta::from_bytes(delta_file_bytes) {
        Ok(delta) => delta,
        Err(_) => {
            return Err(PatchError::MalformedDelta);
        },
    };
    if !delta_fits(&delta, basis_file_bytes.len(), chunk_size) {
        return Err(PatchError::BlockIndexOutOfRange);
    }
    Ok(apply_delta(basis_file_bytes, &delta, chunk_size))
}

} // verus!
