use summa_solvency::circuits::inclusion::MstInclusionCircuit;
use summa_solvency::circuits::solvency::SolvencyCircuit;
use summa_solvency::entry::Entry;
use summa_solvency::merkle_sum_tree::{BuildMode, MerkleSumTree};
use summa_solvency::proving::{
    check_instance, inclusion_proof_instance, solvency_proof_instance, InstanceError, ProofError,
};
use summa_solvency::shape::Shape;

fn shape() -> Shape {
    Shape::new(1, 2, 8)
}

fn tree() -> MerkleSumTree {
    let entries = vec![
        Entry::new("userA".to_string(), vec![300000, 300000]),
        Entry::new("userB".to_string(), vec![256863, 256863]),
    ];
    MerkleSumTree::build(shape(), entries, BuildMode::Natural).unwrap()
}

#[test]
fn satisfied_inclusion_gives_its_instance() {
    let circuit = MstInclusionCircuit::init(shape(), &tree(), 0).unwrap();
    let instance = inclusion_proof_instance(shape(), &circuit).unwrap();
    assert_eq!(instance, circuit.instances());
    assert_eq!(check_instance(shape(), &instance), Ok(()));
}

#[test]
fn inclusion_under_keys_of_another_shape_is_a_mismatch() {
    let circuit = MstInclusionCircuit::init(shape(), &tree(), 0).unwrap();
    for keys in [Shape::new(2, 2, 8), Shape::new(1, 3, 8), Shape::new(1, 2, 7)] {
        assert_eq!(
            inclusion_proof_instance(keys, &circuit).err(),
            Some(ProofError::ShapeMismatch)
        );
    }
}

#[test]
fn unsatisfied_inclusion_is_told_apart_from_a_mismatch() {
    let mut circuit = MstInclusionCircuit::init(shape(), &tree(), 0).unwrap();
    circuit.root_sums[0] += 1;
    assert_eq!(
        inclusion_proof_instance(shape(), &circuit).err(),
        Some(ProofError::Unsatisfied)
    );
    assert_eq!(
        inclusion_proof_instance(Shape::new(2, 2, 8), &circuit).err(),
        Some(ProofError::ShapeMismatch)
    );
}

#[test]
fn empty_circuits_give_no_proof() {
    assert_eq!(
        inclusion_proof_instance(shape(), &MstInclusionCircuit::init_empty(shape())).err(),
        Some(ProofError::Unsatisfied)
    );
    assert_eq!(
        solvency_proof_instance(shape(), &SolvencyCircuit::init_empty(shape())).err(),
        Some(ProofError::Unsatisfied)
    );
}

#[test]
fn solvent_claim_gives_its_instance() {
    let circuit = SolvencyCircuit::init(shape(), &tree(), &vec![556864, 556864]).unwrap();
    let instance = solvency_proof_instance(shape(), &circuit).unwrap();
    assert_eq!(instance, circuit.instances());
    assert_eq!(check_instance(shape(), &instance), Ok(()));
}

#[test]
fn insolvent_claim_gives_no_proof() {
    let circuit = SolvencyCircuit::init(shape(), &tree(), &vec![556863, 556862]).unwrap();
    assert_eq!(
        solvency_proof_instance(shape(), &circuit).err(),
        Some(ProofError::Unsatisfied)
    );
    assert_eq!(
        solvency_proof_instance(Shape::new(1, 2, 9), &circuit).err(),
        Some(ProofError::ShapeMismatch)
    );
}

#[test]
fn instance_of_the_wrong_length_is_malformed() {
    let word = vec![0u8; 32];
    assert_eq!(
        check_instance(shape(), &vec![word.clone(), word.clone()]),
        Err(InstanceError::WrongLength)
    );
    assert_eq!(
        check_instance(shape(), &vec![word.clone(); 4]),
        Err(InstanceError::WrongLength)
    );
    assert_eq!(check_instance(shape(), &Vec::new()), Err(InstanceError::WrongLength));
    assert_eq!(check_instance(shape(), &vec![word.clone(); 3]), Ok(()));
    assert_eq!(
        check_instance(Shape::new(1, usize::MAX, 8), &vec![word; 3]),
        Err(InstanceError::WrongLength)
    );
}

#[test]
fn instance_with_a_short_word_is_malformed() {
    let word = vec![0u8; 32];
    assert_eq!(
        check_instance(shape(), &vec![word.clone(), word.clone(), vec![0u8; 31]]),
        Err(InstanceError::WrongWordWidth)
    );
    assert_eq!(
        check_instance(shape(), &vec![vec![0u8; 33], word.clone(), word.clone()]),
        Err(InstanceError::WrongWordWidth)
    );
    assert_eq!(
        check_instance(shape(), &vec![vec![0u8; 31], word]),
        Err(InstanceError::WrongLength)
    );
}
