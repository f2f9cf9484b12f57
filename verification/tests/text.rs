use labyrinth_tournament::text::{
    decimal_string, owner_from_hex, parse_account_owner, parse_wallet_address, wallet_from_hex,
};
use labyrinth_tournament::AccountOwner;

fn sample_wallet() -> [u8; 20] {
    [
        0x00, 0x01, 0x0a, 0x10, 0x7f, 0x80, 0xab, 0xcd, 0xef, 0xff, 0x12, 0x34, 0x56, 0x78, 0x9a,
        0xbc, 0xde, 0xf0, 0x0f, 0x99,
    ]
}

const SAMPLE: &str = "00010a107f80abcdefff123456789abcdef00f99";

#[test]
fn decimal_of_small_and_large_numbers() {
    assert_eq!(decimal_string(0), "0");
    assert_eq!(decimal_string(7), "7");
    assert_eq!(decimal_string(10), "10");
    assert_eq!(decimal_string(1_700_000_000), "1700000000");
    assert_eq!(decimal_string(u64::MAX), "18446744073709551615");
}

#[test]
fn wallet_from_plain_digits() {
    assert_eq!(wallet_from_hex(SAMPLE), Some(sample_wallet()));
    assert_eq!(wallet_from_hex("00010A107F80ABCDEFFF123456789ABCDEF00F99"), Some(sample_wallet()));
    assert_eq!(wallet_from_hex("00010a107F80abCDefFF123456789aBcDeF00f99"), Some(sample_wallet()));
}

#[test]
fn wallet_from_digits_of_wrong_shape() {
    assert_eq!(wallet_from_hex(""), None);
    assert_eq!(wallet_from_hex(&SAMPLE[..38]), None);
    assert_eq!(wallet_from_hex(&SAMPLE[..39]), None);
    assert_eq!(wallet_from_hex(&format!("{}00", SAMPLE)), None);
    assert_eq!(wallet_from_hex("g0010a107f80abcdefff123456789abcdef00f99"), None);
    assert_eq!(wallet_from_hex("00010a107f80abcdefff123456789abcdef00f9 "), None);
    assert_eq!(wallet_from_hex("0x010a107f80abcdefff123456789abcdef00f99"), None);
    assert_eq!(wallet_from_hex("é0010a107f80abcdefff123456789abcdef00f9"), None);
}

#[test]
fn wallet_address_with_and_without_prefix() {
    assert_eq!(parse_wallet_address(SAMPLE), Some(sample_wallet()));
    assert_eq!(parse_wallet_address(&format!("0x{}", SAMPLE)), Some(sample_wallet()));
    assert_eq!(parse_wallet_address(&format!("0X{}", SAMPLE.to_uppercase())), Some(sample_wallet()));
    assert_eq!(parse_wallet_address(&format!("0x0x{}", SAMPLE)), Some(sample_wallet()));
    assert_eq!(parse_wallet_address(&format!("x0{}", SAMPLE)), None);
    assert_eq!(parse_wallet_address(&format!("{}0x", SAMPLE)), None);
    assert_eq!(parse_wallet_address("0x"), None);
    assert_eq!(parse_wallet_address(""), None);
}

#[test]
fn a_prefix_inside_the_digits_is_kept() {
    let text = "0x0a0x0000000000000000000000000000000000";
    assert_eq!(text.len(), 40);
    assert_eq!(parse_wallet_address(text), None);
    let digits = "0a00000000000000000000000000000000000000";
    let mut wallet = [0u8; 20];
    wallet[0] = 0x0a;
    assert_eq!(parse_wallet_address(&format!("0x{}", digits)), Some(wallet));
}

#[test]
fn account_owner_of_both_lengths() {
    assert_eq!(parse_account_owner(SAMPLE), Some(AccountOwner::Address20(sample_wallet())));
    assert_eq!(
        parse_account_owner(&format!("0x{}", SAMPLE.to_uppercase())),
        Some(AccountOwner::Address20(sample_wallet()))
    );
    let long = "ff".repeat(31) + "0e";
    let mut address = [0xffu8; 32];
    address[31] = 0x0e;
    assert_eq!(parse_account_owner(&long), Some(AccountOwner::Address32(address)));
    assert_eq!(parse_account_owner(&format!("0x{}", long)), Some(AccountOwner::Address32(address)));
    assert_eq!(owner_from_hex(&long), Some(AccountOwner::Address32(address)));
    assert_eq!(parse_account_owner(&"ff".repeat(30)), None);
    assert_eq!(parse_account_owner(&"zz".repeat(32)), None);
    assert_eq!(parse_account_owner(""), None);
    assert_eq!(owner_from_hex(&"ab".repeat(33)), None);
}
