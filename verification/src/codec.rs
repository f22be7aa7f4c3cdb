//! Text and byte codecs of the ingested records: hexadecimal signatures,
//! decimal amounts of 256 bits, and the contract encoding of a message.

use vstd::prelude::*;
use vstd::utf8::encode_utf8;
use crate::encoding::{be_bytes, WORD_WIDTH};

verus! {

/// The value of a hexadecimal digit, in either case.
pub open spec fn hex_digit_value(digit: u8) -> Option<nat> {
    if 0x30 <= digit <= 0x39 {
        Some((digit - 0x30) as nat)
    } else if 0x41 <= digit <= 0x46 {
        Some((digit - 0x41 + 10) as nat)
    } else if 0x61 <= digit <= 0x66 {
        Some((digit - 0x61 + 10) as nat)
    } else {
        None
    }
}

/// `text` without a leading `0x` or `0X`.
pub open spec fn strip_hex_prefix(text: Seq<u8>) -> Seq<u8> {
    if text.len() >= 2 && text[0] == 0x30 && (text[1] == 0x78 || text[1] == 0x58) {
        text.subrange(2, text.len() as int)
    } else {
        text
    }
}

/// Whether `text` is hexadecimal: an even number of bytes, all of them
/// digits once the prefix is taken off.
pub open spec fn is_hex(text: Seq<u8>) -> bool {
    &&& text.len() % 2 == 0
    &&& forall|i: int|
        0 <= i < strip_hex_prefix(text).len() ==> hex_digit_value(
            #[trigger] strip_hex_prefix(text)[i],
        ) is Some
}

/// The bytes that the digits stand for, two digits to a byte.
pub open spec fn hex_bytes(digits: Seq<u8>) -> Seq<u8> {
    Seq::new(
        digits.len() / 2,
        |i: int|
            (16 * hex_digit_value(digits[2 * i]).unwrap() + hex_digit_value(
                digits[2 * i + 1],
            ).unwrap()) as u8,
    )
}

/// The bytes that hexadecimal `text` stands for.
pub open spec fn hex_decoded(text: Seq<u8>) -> Seq<u8> {
    hex_bytes(strip_hex_prefix(text))
}

/// The error of `ethers::types::Bytes` on text that is not hexadecimal,
/// carried through unread.
#[verifier::external_type_specification]
#[verifier::external_body]
pub struct ExParseBytesError(ethers::types::ParseBytesError);

/// Calls `str::parse` for `ethers::types::Bytes`, which decodes with
/// `const_hex::decode`. Trusted: the text is accepted exactly when it is
/// hexadecimal, with or without a prefix, and the bytes are then those
/// that its digits stand for.
#[verifier::external_body]
pub(crate) fn bytes_from_hex(text: &str) -> (decoded: Result<
    Vec<u8>,
    ethers::types::ParseBytesError,
>)
    ensures
        decoded is Ok <==> is_hex(encode_utf8(text@)),
        decoded is Ok ==> decoded->Ok_0@ == hex_decoded(encode_utf8(text@)),
{
    text.parse::<ethers::types::Bytes>().map(|bytes| bytes.to_vec())
}

/// Why a text is not a decimal amount.
#[derive(Clone, Copy, Debug, PartialEq, Eq, Structural)]
pub enum DecimalError {
    /// A byte is not a digit.
    InvalidCharacter,
    /// The number does not fit 256 bits.
    TooLarge,
}

/// Two to the power 256: the first number that is no amount.
pub open spec fn uint256_limit() -> nat {
    0x1_0000_0000_0000_0000_0000_0000_0000_0000_0000_0000_0000_0000_0000_0000_0000_0000nat
}

/// The number that the decimal digits of `text` stand for. Reading from
/// the left, the first byte that is no digit, or at which the number
/// reaches two to the power 256, decides the error.
pub open spec fn decimal_value(text: Seq<u8>) -> Result<nat, DecimalError>
    decreases text.len(),
{
    if text.len() == 0 {
        Ok(0)
    } else {
        match decimal_value(text.drop_last()) {
            Err(error) => Err(error),
            Ok(front) => {
                let digit = text.last();
                if !(0x30 <= digit <= 0x39) {
                    Err(DecimalError::InvalidCharacter)
                } else if 10 * front + (digit - 0x30) >= uint256_limit() {
                    Err(DecimalError::TooLarge)
                } else {
                    Ok((10 * front + (digit - 0x30)) as nat)
                }
            },
        }
    }
}

/// The number held in four 64-bit limbs, least significant first.
pub open spec fn limbs_value(limbs: Seq<u64>) -> nat {
    (limbs[0] + limbs[1] * 0x1_0000_0000_0000_0000 + limbs[2]
        * 0x1_0000_0000_0000_0000_0000_0000_0000_0000 + limbs[3]
        * 0x1_0000_0000_0000_0000_0000_0000_0000_0000_0000_0000_0000_0000) as nat
}

/// Calls `ethers::types::U256::from_dec_str` and hands out the limbs of
/// the number. Trusted: the text is read as `decimal_value` says, the two
/// errors are told apart as it says, and the limbs hold the number, least
/// significant first.
#[verifier::external_body]
pub(crate) fn uint256_from_decimal(text: &str) -> (parsed: Result<[u64; 4], DecimalError>)
    ensures
        match parsed {
            Ok(limbs) => decimal_value(encode_utf8(text@)) == Ok::<nat, DecimalError>(
                limbs_value(limbs@),
            ),
            Err(error) => decimal_value(encode_utf8(text@)) == Err::<nat, DecimalError>(error),
        },
{
    match ethers::types::U256::from_dec_str(text) {
        Ok(value) => Ok(value.0),
        Err(ethers::abi::ethereum_types::FromDecStrErr::InvalidCharacter) => Err(
            DecimalError::InvalidCharacter,
        ),
        Err(ethers::abi::ethereum_types::FromDecStrErr::InvalidLength) => Err(
            DecimalError::TooLarge,
        ),
    }
}

/// Greatest length in bytes of a text that the encoder can take: the
/// length of the whole encoding is counted in 32 bits.
pub const MAX_ENCODED_TEXT_LEN: usize = 0xFFFF_FFA0;

/// As many zero bytes as bring `len` bytes up to whole words.
pub open spec fn word_padding(len: nat) -> Seq<u8> {
    Seq::new(((WORD_WIDTH - len % (WORD_WIDTH as nat)) % (WORD_WIDTH as int)) as nat, |i: int| 0u8)
}

/// The contract encoding of a string: a word that holds the offset of the
/// data, which is one word; a word that holds the length in bytes; and the
/// bytes, filled up with zeros to whole words.
pub open spec fn abi_encoded_string(text: Seq<u8>) -> Seq<u8> {
    be_bytes(WORD_WIDTH as nat, WORD_WIDTH as nat) + be_bytes(text.len(), WORD_WIDTH as nat) + text
        + word_padding(text.len())
}

/// Calls `ethers::abi::AbiEncode::encode` on a `String`, which encodes
/// the one token with `ethabi::encode`. Trusted: the result is the contract
/// encoding of the text. Longer texts are left out: on them the encoder's
/// count of the length, kept in 32 bits, overflows.
#[verifier::external_body]
pub(crate) fn abi_encode_string(text: String) -> (encoded: Vec<u8>)
    requires
        encode_utf8(text@).len() <= MAX_ENCODED_TEXT_LEN,
    ensures
        encoded@ == abi_encoded_string(encode_utf8(text@)),
{
    ethers::abi::AbiEncode::encode(text)
}

} // verus!
