//! Conversion of the rows of the signatures file and of the assets file
//! into address ownership proofs and asset declarations.

use vstd::prelude::*;
use vstd::string::StringSliceAdditionalSpecFns;
use vstd::utf8::encode_utf8;
use crate::codec::{
    abi_encode_string,
    abi_encoded_string,
    bytes_from_hex,
    decimal_value,
    hex_decoded,
    is_hex,
    limbs_value,
    uint256_from_decimal,
    DecimalError,
    MAX_ENCODED_TEXT_LEN,
};

verus! {

/// One row of the signatures file: a chain, an address on it, a signature
/// in hexadecimal and the message that was signed.
#[derive(Clone, Debug, PartialEq, Eq)]
pub struct SignatureRecord {
    pub chain: String,
    pub address: String,
    pub signature: String,
    pub message: String,
}

/// One row of the assets file: a chain, the name of an asset on it and an
/// amount in decimal.
#[derive(Clone, Debug, PartialEq, Eq)]
pub struct AssetRecord {
    pub chain: String,
    pub asset_name: String,
    pub amount: String,
}

/// The claim that an address on a chain belongs to the custodian: the
/// signature over the message, made with the address's key.
#[derive(Clone, Debug, PartialEq, Eq)]
pub struct AddressOwnershipProof {
    pub cex_address: String,
    pub chain: String,
    pub signature: Vec<u8>,
    pub message: Vec<u8>,
}

/// An unsigned number of 256 bits, in four limbs, least significant first.
#[derive(Clone, Copy, Debug, PartialEq, Eq)]
pub struct Uint256 {
    pub limbs: [u64; 4],
}

/// The amount that the custodian holds of one asset on one chain.
#[derive(Clone, Debug, PartialEq, Eq)]
pub struct Asset {
    pub asset_name: String,
    pub chain: String,
    pub amount: Uint256,
}

/// Why the rows of a file could not be converted.
#[derive(Clone, Copy, Debug, PartialEq, Eq, Structural)]
pub enum ParseError {
    /// The signature of the row is not hexadecimal.
    InvalidSignature { row: usize },
    /// The message of the row is too long to be encoded.
    MessageTooLong { row: usize },
    /// The amount of the row holds a byte that is no decimal digit.
    InvalidAmountCharacter { row: usize },
    /// The amount of the row does not fit 256 bits.
    AmountTooLarge { row: usize },
    /// The file does not hold one row per asset.
    AssetCountMismatch { expected: usize, found: usize },
}

impl Uint256 {
    /// The number that the limbs hold.
    pub open spec fn value(&self) -> nat {
        limbs_value(self.limbs@)
    }
}

/// The bytes of the signature text of a row.
pub open spec fn signature_text(record: SignatureRecord) -> Seq<u8> {
    encode_utf8(record.signature@)
}

/// The bytes of the message of a row.
pub open spec fn message_text(record: SignatureRecord) -> Seq<u8> {
    encode_utf8(record.message@)
}

/// The error with which a row is turned away, if any: its signature is not
/// hexadecimal, or else its message is too long to be encoded.
pub open spec fn signature_row_error(record: SignatureRecord, row: usize) -> Option<ParseError> {
    if !is_hex(signature_text(record)) {
        Some(ParseError::InvalidSignature { row })
    } else if message_text(record).len() > MAX_ENCODED_TEXT_LEN {
        Some(ParseError::MessageTooLong { row })
    } else {
        None
    }
}

/// The bytes of the amount text of a row.
pub open spec fn amount_text(record: AssetRecord) -> Seq<u8> {
    encode_utf8(record.amount@)
}

/// `proof` is what `record` converts to: the address and the chain as they
/// are, the signature decoded from hexadecimal, the message in its
/// contract encoding.
pub open spec fn is_proof_of(proof: AddressOwnershipProof, record: SignatureRecord) -> bool {
    &&& proof.cex_address@ == record.address@
    &&& proof.chain@ == record.chain@
    &&& proof.signature@ == hex_decoded(signature_text(record))
    &&& proof.message@ == abi_encoded_string(message_text(record))
}

/// `asset` is what `record` converts to: the name and the chain as they
/// are, the amount read from decimal.
pub open spec fn is_asset_of(asset: Asset, record: AssetRecord) -> bool {
    &&& asset.asset_name@ == record.asset_name@
    &&& asset.chain@ == record.chain@
    &&& decimal_value(amount_text(record)) == Ok::<nat, DecimalError>(asset.amount.value())
}

impl SignatureRecord {
    /// A record holding exactly the four given fields.
    pub fn new(chain: String, address: String, signature: String, message: String) -> (record:
        Self)
        ensures
            record.chain == chain,
            record.address == address,
            record.signature == signature,
            record.message == message,
    {
        Self { chain, address, signature, message }
    }
}

impl AssetRecord {
    /// A record holding exactly the three given fields.
    pub fn new(chain: String, asset_name: String, amount: String) -> (record: Self)
        ensures
            record.chain == chain,
            record.asset_name == asset_name,
            record.amount == amount,
    {
        Self { chain, asset_name, amount }
    }
}

/// Converts the rows of the signatures file, in order. The first row that
/// cannot be converted stops the conversion: its signature is not
/// hexadecimal, or else its message is too long to be encoded.
pub fn parse_signature_csv(records: &Vec<SignatureRecord>) -> (result: Result<
    Vec<AddressOwnershipProof>,
    ParseError,
>)
    ensures
        match result {
            Ok(proofs) => {
                &&& proofs@.len() == records@.len()
                &&& forall|i: int|
                    0 <= i < records@.len() ==> signature_row_error(
                        #[trigger] records@[i],
                        i as usize,
                    ) is None
                &&& forall|i: int|
                    0 <= i < records@.len() ==> is_proof_of(#[trigger] proofs@[i], records@[i])
            },
            Err(error) => exists|row: usize|
                {
                    &&& row < records@.len()
                    &&& signature_row_error(#[trigger] records@[row as int], row) == Some(error)
                    &&& forall|i: int|
                        0 <= i < row ==> signature_row_error(
                            #[trigger] records@[i],
                            i as usize,
                        ) is None
                },
        },
{
    let mut proofs: Vec<AddressOwnershipProof> = Vec::new();
    let mut row: usize = 0;
    while row < records.len()
        invariant
            row <= records@.len(),
            proofs@.len() == row,
            forall|i: int|
                0 <= i < row ==> signature_row_error(#[trigger] records@[i], i as usize) is None,
            forall|i: int| 0 <= i < row ==> is_proof_of(#[trigger] proofs@[i], records@[i]),
        decreases records@.len() - row,
    {
        let record = &records[row];
        let signature = match bytes_from_hex(record.signature.as_str()) {
            Ok(bytes) => bytes,
            Err(_) => {
                proof {
                    assert(signature_row_error(records@[row as int], row) == Some(
                        ParseError::InvalidSignature { row },
                    ));
                }
                return Err(ParseError::InvalidSignature { row });
            },
        };
        let message = record.message.as_str();
        let message_len = message.as_bytes().len();
        proof {
            assert(message.spec_bytes() == message_text(*record));
        }
        if message_len > MAX_ENCODED_TEXT_LEN {
            proof {
                assert(signature_row_error(records@[row as int], row) == Some(
                    ParseError::MessageTooLong { row },
                ));
            }
            return Err(ParseError::MessageTooLong { row });
        }
        let proof = AddressOwnershipProof {
            cex_address: record.address.clone(),
            chain: record.chain.clone(),
            signature,
            message: abi_encode_string(record.message.clone()),
        };
        proofs.push(proof);
        row = row + 1;
    }
    Ok(proofs)
}

/// Converts the rows of the assets file, in order, and holds their number
/// against `N_ASSETS`. The first row whose amount is no decimal number of
/// 256 bits stops the conversion; the number of rows is held against
/// `N_ASSETS` once every amount has been read.
pub fn parse_asset_csv<const N_ASSETS: usize>(records: &Vec<AssetRecord>) -> (result: Result<
    Vec<Asset>,
    ParseError,
>)
    ensures
        match result {
            Ok(assets) => {
                &&& records@.len() == N_ASSETS
                &&& assets@.len() == N_ASSETS
                &&& forall|i: int|
                    0 <= i < records@.len() ==> is_asset_of(#[trigger] assets@[i], records@[i])
            },
            Err(ParseError::InvalidAmountCharacter { row }) => {
                &&& row < records@.len()
                &&& decimal_value(amount_text(records@[row as int])) == Err::<nat, DecimalError>(
                    DecimalError::InvalidCharacter,
                )
                &&& forall|i: int|
                    0 <= i < row ==> decimal_value(amount_text(#[trigger] records@[i])) is Ok
            },
            Err(ParseError::AmountTooLarge { row }) => {
                &&& row < records@.len()
                &&& decimal_value(amount_text(records@[row as int])) == Err::<nat, DecimalError>(
                    DecimalError::TooLarge,
                )
                &&& forall|i: int|
                    0 <= i < row ==> decimal_value(amount_text(#[trigger] records@[i])) is Ok
            },
            Err(ParseError::AssetCountMismatch { expected, found }) => {
                &&& expected == N_ASSETS
                &&& found == records@.len()
                &&& found != N_ASSETS
                &&& forall|i: int|
                    0 <= i < records@.len() ==> decimal_value(
                        amount_text(#[trigger] records@[i]),
                    ) is Ok
            },
            Err(ParseError::InvalidSignature { .. }) => false,
            Err(ParseError::MessageTooLong { .. }) => false,
        },
{
    let mut assets: Vec<Asset> = Vec::new();
    let mut row: usize = 0;
    while row < records.len()
        invariant
            row <= records@.len(),
            assets@.len() == row,
            forall|i: int|
                0 <= i < row ==> decimal_value(amount_text(#[trigger] records@[i])) is Ok,
            forall|i: int| 0 <= i < row ==> is_asset_of(#[trigger] assets@[i], records@[i]),
        decreases records@.len() - row,
    {
        let record = &records[row];
        let limbs = match uint256_from_decimal(record.amount.as_str()) {
            Ok(limbs) => limbs,
            Err(DecimalError::InvalidCharacter) => {
                return Err(ParseError::InvalidAmountCharacter { row });
            },
            Err(DecimalError::TooLarge) => {
                return Err(ParseError::AmountTooLarge { row });
            },
        };
        let asset = Asset {
            asset_name: record.asset_name.clone(),
            chain: record.chain.clone(),
            amount: Uint256 { limbs },
        };
        assets.push(asset);
        row = row + 1;
    }
    if assets.len() != N_ASSETS {
        return Err(ParseError::AssetCountMismatch { expected: N_ASSETS, found: assets.len() });
    }
    Ok(assets)
}

} // verus!
