use ethers::abi::AbiEncode;
use ethers::types::{Bytes, U256};
use summa_solvency::csv_parser::{
    parse_asset_csv, parse_signature_csv, AddressOwnershipProof, Asset, AssetRecord, ParseError,
    SignatureRecord, Uint256,
};

fn signature_rows() -> Vec<SignatureRecord> {
    vec![SignatureRecord::new(
        "ETH".to_string(),
        "0x70997970C51812dc3A010C7d01b50e0d17dc79C8".to_string(),
        "0x089b32327d332c295dc3b8873c205b72153211de6dc1c51235782b091cefb9d06d6df2661b86a7d441cd322f125b84901486b150e684221a7b7636eb8182af551b".to_string(),
        "Summa proof of solvency for CryptoExchange".to_string(),
    )]
}

fn asset_rows() -> Vec<AssetRecord> {
    vec![
        AssetRecord::new("ETH".to_string(), "ETH".to_string(), "556863".to_string()),
        AssetRecord::new("ETH".to_string(), "USDT".to_string(), "556863".to_string()),
    ]
}

#[test]
fn test_parse_csv_to_signature() {
    let address_ownership = parse_signature_csv(&signature_rows()).unwrap();

    let signature: Bytes =
        ("0x089b32327d332c295dc3b8873c205b72153211de6dc1c51235782b091cefb9d06d6df2661b86a7d441cd322f125b84901486b150e684221a7b7636eb8182af551b").parse().unwrap();
    let message: Bytes = "Summa proof of solvency for CryptoExchange".encode().into();

    let first_address_ownership = AddressOwnershipProof {
        chain: "ETH".to_string(),
        cex_address: "0x70997970C51812dc3A010C7d01b50e0d17dc79C8".to_string(),
        signature: signature.to_vec(),
        message: message.to_vec(),
    };

    assert_eq!(address_ownership[0], first_address_ownership);
}

#[test]
fn test_parse_csv_to_assets() {
    let assets = parse_asset_csv::<2>(&asset_rows()).unwrap();

    assert_eq!(
        assets[0],
        Asset {
            chain: "ETH".to_string(),
            asset_name: "ETH".to_string(),
            amount: Uint256 { limbs: U256::from(556863).0 },
        }
    );
    assert_eq!(
        assets[1],
        Asset {
            chain: "ETH".to_string(),
            asset_name: "USDT".to_string(),
            amount: Uint256 { limbs: U256::from(556863).0 },
        }
    );
}

#[test]
fn signature_record_keeps_its_fields() {
    let record = SignatureRecord::new(
        "ETH".to_string(),
        "0xabc".to_string(),
        "0x01".to_string(),
        "hello".to_string(),
    );
    assert_eq!(record.chain, "ETH");
    assert_eq!(record.address, "0xabc");
    assert_eq!(record.signature, "0x01");
    assert_eq!(record.message, "hello");
}

#[test]
fn signature_is_decoded_from_hex() {
    let rows = vec![SignatureRecord::new(
        "ETH".to_string(),
        "0xabc".to_string(),
        "0x00fFa19B".to_string(),
        "m".to_string(),
    )];
    let proofs = parse_signature_csv(&rows).unwrap();
    assert_eq!(proofs[0].signature, vec![0x00, 0xff, 0xa1, 0x9b]);
}

#[test]
fn signature_without_prefix_is_accepted() {
    let rows = vec![SignatureRecord::new(
        "ETH".to_string(),
        "0xabc".to_string(),
        "1213".to_string(),
        "m".to_string(),
    )];
    let proofs = parse_signature_csv(&rows).unwrap();
    assert_eq!(proofs[0].signature, vec![0x12, 0x13]);
}

#[test]
fn message_has_the_layout_of_an_encoded_string() {
    let rows = vec![SignatureRecord::new(
        "ETH".to_string(),
        "0xabc".to_string(),
        "".to_string(),
        "abc".to_string(),
    )];
    let proofs = parse_signature_csv(&rows).unwrap();
    let mut expected = vec![0u8; 96];
    expected[31] = 32;
    expected[63] = 3;
    expected[64] = b'a';
    expected[65] = b'b';
    expected[66] = b'c';
    assert_eq!(proofs[0].message, expected);
    assert_eq!(proofs[0].signature, Vec::<u8>::new());
}

#[test]
fn empty_message_is_two_words() {
    let rows = vec![SignatureRecord::new(
        "ETH".to_string(),
        "0xabc".to_string(),
        "0x".to_string(),
        "".to_string(),
    )];
    let proofs = parse_signature_csv(&rows).unwrap();
    let mut expected = vec![0u8; 64];
    expected[31] = 32;
    assert_eq!(proofs[0].message, expected);
}

#[test]
fn first_bad_signature_is_reported() {
    let mut rows = signature_rows();
    rows.push(SignatureRecord::new(
        "ETH".to_string(),
        "0xabc".to_string(),
        "0x123".to_string(),
        "m".to_string(),
    ));
    rows.push(SignatureRecord::new(
        "ETH".to_string(),
        "0xabc".to_string(),
        "zz".to_string(),
        "m".to_string(),
    ));
    assert_eq!(
        parse_signature_csv(&rows).unwrap_err(),
        ParseError::InvalidSignature { row: 1 }
    );
}

#[test]
fn signature_with_a_bad_digit_is_rejected() {
    let rows = vec![SignatureRecord::new(
        "ETH".to_string(),
        "0xabc".to_string(),
        "0x12g4".to_string(),
        "m".to_string(),
    )];
    assert_eq!(
        parse_signature_csv(&rows).unwrap_err(),
        ParseError::InvalidSignature { row: 0 }
    );
}

#[test]
fn no_rows_give_no_proofs() {
    assert!(parse_signature_csv(&Vec::new()).unwrap().is_empty());
}

#[test]
fn amount_with_a_bad_character_is_rejected() {
    let rows = vec![
        AssetRecord::new("ETH".to_string(), "ETH".to_string(), "1".to_string()),
        AssetRecord::new("ETH".to_string(), "USDT".to_string(), "12a".to_string()),
    ];
    assert_eq!(
        parse_asset_csv::<2>(&rows).unwrap_err(),
        ParseError::InvalidAmountCharacter { row: 1 }
    );
}

#[test]
fn amount_of_more_than_256_bits_is_rejected() {
    let limit = "115792089237316195423570985008687907853269984665640564039457584007913129639936";
    let rows = vec![AssetRecord::new(
        "ETH".to_string(),
        "ETH".to_string(),
        limit.to_string(),
    )];
    assert_eq!(
        parse_asset_csv::<1>(&rows).unwrap_err(),
        ParseError::AmountTooLarge { row: 0 }
    );
}

#[test]
fn greatest_amount_fills_every_limb() {
    let greatest = "115792089237316195423570985008687907853269984665640564039457584007913129639935";
    let rows = vec![AssetRecord::new(
        "ETH".to_string(),
        "ETH".to_string(),
        greatest.to_string(),
    )];
    let assets = parse_asset_csv::<1>(&rows).unwrap();
    assert_eq!(assets[0].amount.limbs, [u64::MAX; 4]);
}

#[test]
fn amount_limbs_are_least_significant_first() {
    let rows = vec![AssetRecord::new(
        "ETH".to_string(),
        "ETH".to_string(),
        "18446744073709551617".to_string(),
    )];
    let assets = parse_asset_csv::<1>(&rows).unwrap();
    assert_eq!(assets[0].amount.limbs, [1, 1, 0, 0]);
}

#[test]
fn empty_amount_is_zero() {
    let rows = vec![AssetRecord::new(
        "ETH".to_string(),
        "ETH".to_string(),
        "".to_string(),
    )];
    let assets = parse_asset_csv::<1>(&rows).unwrap();
    assert_eq!(assets[0].amount.limbs, [0, 0, 0, 0]);
}

#[test]
fn wrong_number_of_assets_is_rejected() {
    assert_eq!(
        parse_asset_csv::<3>(&asset_rows()).unwrap_err(),
        ParseError::AssetCountMismatch { expected: 3, found: 2 }
    );
    assert_eq!(
        parse_asset_csv::<1>(&asset_rows()).unwrap_err(),
        ParseError::AssetCountMismatch { expected: 1, found: 2 }
    );
}

#[test]
fn bad_amount_is_reported_before_the_count() {
    let rows = vec![AssetRecord::new(
        "ETH".to_string(),
        "ETH".to_string(),
        "-1".to_string(),
    )];
    assert_eq!(
        parse_asset_csv::<2>(&rows).unwrap_err(),
        ParseError::InvalidAmountCharacter { row: 0 }
    );
}

fn signature_row(signature: &str, message: &str) -> Vec<SignatureRecord> {
    vec![SignatureRecord::new(
        "ETH".to_string(),
        "0xabc".to_string(),
        signature.to_string(),
        message.to_string(),
    )]
}

fn amount_row(amount: &str) -> Vec<AssetRecord> {
    vec![AssetRecord::new(
        "ETH".to_string(),
        "ETH".to_string(),
        amount.to_string(),
    )]
}

#[test]
fn upper_case_prefix_is_taken_off() {
    let proofs = parse_signature_csv(&signature_row("0XAb", "m")).unwrap();
    assert_eq!(proofs[0].signature, vec![0xab]);
}

#[test]
fn prefix_counts_towards_the_even_length() {
    assert_eq!(
        parse_signature_csv(&signature_row("0x1", "m")).unwrap_err(),
        ParseError::InvalidSignature { row: 0 }
    );
    assert_eq!(
        parse_signature_csv(&signature_row("1", "m")).unwrap_err(),
        ParseError::InvalidSignature { row: 0 }
    );
    assert_eq!(
        parse_signature_csv(&signature_row("0x0x12", "m")).unwrap_err(),
        ParseError::InvalidSignature { row: 0 }
    );
    assert_eq!(
        parse_signature_csv(&signature_row("x0", "m")).unwrap_err(),
        ParseError::InvalidSignature { row: 0 }
    );
}

#[test]
fn signature_outside_ascii_is_rejected() {
    assert_eq!(
        parse_signature_csv(&signature_row("éé", "m")).unwrap_err(),
        ParseError::InvalidSignature { row: 0 }
    );
    assert_eq!(
        parse_signature_csv(&signature_row("0xé1", "m")).unwrap_err(),
        ParseError::InvalidSignature { row: 0 }
    );
}

#[test]
fn message_of_whole_words_is_not_padded() {
    let message = "0123456789abcdef0123456789abcdef";
    let proofs = parse_signature_csv(&signature_row("", message)).unwrap();
    let mut expected = vec![0u8; 64];
    expected[31] = 32;
    expected[63] = 32;
    expected.extend(message.as_bytes());
    assert_eq!(proofs[0].message, expected);
}

#[test]
fn message_is_padded_to_whole_words() {
    let message = "0123456789abcdef0123456789abcdefX";
    let proofs = parse_signature_csv(&signature_row("", message)).unwrap();
    let mut expected = vec![0u8; 64];
    expected[31] = 32;
    expected[63] = 33;
    expected.extend(message.as_bytes());
    expected.extend(vec![0u8; 31]);
    assert_eq!(proofs[0].message, expected);
    assert_eq!(proofs[0].message.len(), 128);
}

#[test]
fn message_is_counted_in_bytes() {
    let proofs = parse_signature_csv(&signature_row("", "é")).unwrap();
    let mut expected = vec![0u8; 96];
    expected[31] = 32;
    expected[63] = 2;
    expected[64] = 0xc3;
    expected[65] = 0xa9;
    assert_eq!(proofs[0].message, expected);
}

#[test]
fn long_message_has_its_length_in_the_second_word() {
    let message = "a".repeat(70000);
    let proofs = parse_signature_csv(&signature_row("", &message)).unwrap();
    assert_eq!(proofs[0].message.len(), 64 + 70016);
    assert_eq!(proofs[0].message[60..64], [0, 1, 0x11, 0x70]);
}

#[test]
fn leading_zeros_of_an_amount_are_read() {
    let assets = parse_asset_csv::<1>(&amount_row("000123")).unwrap();
    assert_eq!(assets[0].amount.limbs, [123, 0, 0, 0]);
}

#[test]
fn sign_and_space_are_no_digits() {
    for amount in ["+1", " 1", "1 ", "1.0", "0x10", "１"] {
        assert_eq!(
            parse_asset_csv::<1>(&amount_row(amount)).unwrap_err(),
            ParseError::InvalidAmountCharacter { row: 0 }
        );
    }
}

#[test]
fn first_fault_of_an_amount_from_the_left_decides() {
    let too_large_then_bad =
        "1157920892373161954235709850086879078532699846656405640394575840079131296399360a";
    assert_eq!(
        parse_asset_csv::<1>(&amount_row(too_large_then_bad)).unwrap_err(),
        ParseError::AmountTooLarge { row: 0 }
    );
    let bad_then_too_large =
        "a1157920892373161954235709850086879078532699846656405640394575840079131296399360";
    assert_eq!(
        parse_asset_csv::<1>(&amount_row(bad_then_too_large)).unwrap_err(),
        ParseError::InvalidAmountCharacter { row: 0 }
    );
}

#[test]
fn amount_that_overflows_on_the_last_digit_is_too_large() {
    let over = "115792089237316195423570985008687907853269984665640564039457584007913129639940";
    assert_eq!(
        parse_asset_csv::<1>(&amount_row(over)).unwrap_err(),
        ParseError::AmountTooLarge { row: 0 }
    );
    let many_digits = "2".to_string() + &"0".repeat(77);
    assert_eq!(
        parse_asset_csv::<1>(&amount_row(&many_digits)).unwrap_err(),
        ParseError::AmountTooLarge { row: 0 }
    );
    let zeros = "0".repeat(100);
    assert_eq!(parse_asset_csv::<1>(&amount_row(&zeros)).unwrap()[0].amount.limbs, [0; 4]);
}

#[test]
fn amount_of_two_to_the_128_sits_in_the_third_limb() {
    let assets =
        parse_asset_csv::<1>(&amount_row("340282366920938463463374607431768211456")).unwrap();
    assert_eq!(assets[0].amount.limbs, [0, 0, 1, 0]);
    let assets = parse_asset_csv::<1>(&amount_row(
        "6277101735386680763835789423207666416102355444464034512896",
    ))
    .unwrap();
    assert_eq!(assets[0].amount.limbs, [0, 0, 0, 1]);
}

#[test]
fn no_rows_are_no_assets() {
    assert!(parse_asset_csv::<0>(&Vec::new()).unwrap().is_empty());
    assert_eq!(
        parse_asset_csv::<1>(&Vec::new()).unwrap_err(),
        ParseError::AssetCountMismatch { expected: 1, found: 0 }
    );
}
