//! What the library decides around the proving backend: whether a circuit
//! may be handed to the prover under keys of a given shape, and whether a
//! public instance may be handed to the verifier.
//!
//! The backend itself is not part of the library. Keys are derived from the
//! circuits that `init_empty` gives, a proof is made from a circuit that
//! passed here together with its instance, and what the verifier answers
//! for a well-formed instance is the backend's alone to say.

use vstd::prelude::*;
use crate::circuits::inclusion::MstInclusionCircuit;
use crate::circuits::solvency::SolvencyCircuit;
use crate::encoding::{instance_words, lemma_be_bytes_len, WORD_WIDTH};
use crate::shape::Shape;

verus! {

/// Why no proof can be made.
#[derive(Clone, Copy, Debug, PartialEq, Eq, Structural)]
pub enum ProofError {
    /// The keys were derived for another shape than the circuit has.
    ShapeMismatch,
    /// The witness does not satisfy the constraints: the claim is false of
    /// it, and no fault of the system.
    Unsatisfied,
}

/// Why an instance cannot be verified against.
#[derive(Clone, Copy, Debug, PartialEq, Eq, Structural)]
pub enum InstanceError {
    /// The instance does not hold a digest and one value per asset.
    WrongLength,
    /// A word of the instance does not have 32 bytes.
    WrongWordWidth,
}

/// Every word has the width of a word.
pub open spec fn words_sized(words: Seq<Seq<u8>>) -> bool {
    forall|i: int| 0 <= i < words.len() ==> (#[trigger] words[i]).len() == WORD_WIDTH
}

/// The error with which an instance is turned away under keys of the given
/// shape, if any.
pub open spec fn instance_error(keys: Shape, words: Seq<Seq<u8>>) -> Option<InstanceError> {
    if words.len() != 1 + keys.n_assets {
        Some(InstanceError::WrongLength)
    } else if !words_sized(words) {
        Some(InstanceError::WrongWordWidth)
    } else {
        None
    }
}

/// An instance laid out from a digest of full length and one value per
/// asset is not turned away.
pub proof fn lemma_laid_out_instance_is_accepted(keys: Shape, digest: Seq<u8>, values: Seq<u128>)
    requires
        digest.len() == WORD_WIDTH,
        values.len() == keys.n_assets,
    ensures
        instance_error(keys, instance_words(digest, values)) is None,
{
    let words = instance_words(digest, values);
    assert forall|i: int| 0 <= i < words.len() implies (#[trigger] words[i]).len()
        == WORD_WIDTH by {
        if i > 0 {
            lemma_be_bytes_len(values[i - 1] as nat, WORD_WIDTH as nat);
        }
    }
}

/// The instance to prove an inclusion under keys of shape `keys`, unless
/// the circuit has another shape or its witness does not satisfy it.
pub fn inclusion_proof_instance(keys: Shape, circuit: &MstInclusionCircuit) -> (result: Result<
    Vec<Vec<u8>>,
    ProofError,
>)
    ensures
        match result {
            Ok(words) => {
                &&& circuit.shape == keys
                &&& circuit.satisfied()
                &&& words.deep_view() == instance_words(circuit.root_hash@, circuit.root_sums@)
                &&& instance_error(keys, words.deep_view()) is None
            },
            Err(ProofError::ShapeMismatch) => circuit.shape != keys,
            Err(ProofError::Unsatisfied) => circuit.shape == keys && !circuit.satisfied(),
        },
{
    if circuit.shape.levels != keys.levels || circuit.shape.n_assets != keys.n_assets
        || circuit.shape.n_bytes != keys.n_bytes {
        return Err(ProofError::ShapeMismatch);
    }
    if !circuit.is_satisfied() {
        return Err(ProofError::Unsatisfied);
    }
    proof {
        lemma_laid_out_instance_is_accepted(keys, circuit.root_hash@, circuit.root_sums@);
    }
    Ok(circuit.instances())
}

/// The instance to prove solvency under keys of shape `keys`, unless the
/// circuit has another shape or its witness does not satisfy it.
pub fn solvency_proof_instance(keys: Shape, circuit: &SolvencyCircuit) -> (result: Result<
    Vec<Vec<u8>>,
    ProofError,
>)
    ensures
        match result {
            Ok(words) => {
                &&& circuit.shape == keys
                &&& circuit.satisfied()
                &&& words.deep_view() == instance_words(
                    circuit.root_hash@,
                    circuit.claimed_reserves@,
                )
                &&& instance_error(keys, words.deep_view()) is None
            },
            Err(ProofError::ShapeMismatch) => circuit.shape != keys,
            Err(ProofError::Unsatisfied) => circuit.shape == keys && !circuit.satisfied(),
        },
{
    if circuit.shape.levels != keys.levels || circuit.shape.n_assets != keys.n_assets
        || circuit.shape.n_bytes != keys.n_bytes {
        return Err(ProofError::ShapeMismatch);
    }
    if !circuit.is_satisfied() {
        return Err(ProofError::Unsatisfied);
    }
    proof {
        lemma_laid_out_instance_is_accepted(keys, circuit.root_hash@, circuit.claimed_reserves@);
    }
    Ok(circuit.instances())
}

/// Whether an instance can be verified against under keys of shape `keys`:
/// it holds a digest and one value per asset, each a word of 32 bytes.
pub fn check_instance(keys: Shape, words: &Vec<Vec<u8>>) -> (result: Result<(), InstanceError>)
    ensures
        match result {
            Ok(()) => instance_error(keys, words.deep_view()) is None,
            Err(error) => instance_error(keys, words.deep_view()) == Some(error),
        },
{
    let ghost view = words.deep_view();
    proof {
        assert(view.len() == words@.len());
    }
    let n: usize = words.len();
    if keys.n_assets == usize::MAX || n != 1 + keys.n_assets {
        return Err(InstanceError::WrongLength);
    }
    let mut i: usize = 0;
    while i < words.len()
        invariant
            i <= words@.len(),
            view == words.deep_view(),
            view.len() == 1 + keys.n_assets,
            forall|j: int| 0 <= j < i ==> (#[trigger] view[j]).len() == WORD_WIDTH,
        decreases words@.len() - i,
    {
        proof {
            assert(view[i as int] =~= words@[i as int]@);
        }
        if words[i].len() != WORD_WIDTH {
            proof {
                assert(view[i as int].len() != WORD_WIDTH);
            }
            return Err(InstanceError::WrongWordWidth);
        }
        i = i + 1;
    }
    Ok(())
}

} // verus!
