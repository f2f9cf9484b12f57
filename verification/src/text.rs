//! Text the library builds and reads: decimal numbers and hexadecimal bytes.

use vstd::prelude::*;
use crate::keys::wallet_of;
use crate::types::AccountOwner;

verus! {

/// The character of a decimal digit.
pub open spec fn digit_char(d: int) -> char {
    if d == 0 {
        '0'
    } else if d == 1 {
        '1'
    } else if d == 2 {
        '2'
    } else if d == 3 {
        '3'
    } else if d == 4 {
        '4'
    } else if d == 5 {
        '5'
    } else if d == 6 {
        '6'
    } else if d == 7 {
        '7'
    } else if d == 8 {
        '8'
    } else {
        '9'
    }
}

/// A number written in decimal, without sign or leading zeros.
pub open spec fn decimal(n: nat) -> Seq<char>
    decreases n,
{
    if n < 10 {
        seq![digit_char(n as int)]
    } else {
        decimal(n / 10).push(digit_char((n % 10) as int))
    }
}

/// The character of a hexadecimal digit, in lower case.
pub open spec fn hex_char(d: int) -> char {
    if d < 10 {
        digit_char(d)
    } else if d == 10 {
        'a'
    } else if d == 11 {
        'b'
    } else if d == 12 {
        'c'
    } else if d == 13 {
        'd'
    } else if d == 14 {
        'e'
    } else {
        'f'
    }
}

/// Bytes written in hexadecimal: two lower-case digits for each byte, the
/// high half first.
pub open spec fn hex_text(bytes: Seq<u8>) -> Seq<char>
    decreases bytes.len(),
{
    if bytes.len() == 0 {
        Seq::empty()
    } else {
        hex_text(bytes.drop_last()).push(hex_char(bytes.last() as int / 16)).push(
            hex_char(bytes.last() as int % 16),
        )
    }
}

/// A decimal digit as text.
fn digit_str(d: u64) -> (text: &'static str)
    requires
        d < 10,
    ensures
        text@ == seq![digit_char(d as int)],
{
    proof {
        reveal_strlit("0");
        reveal_strlit("1");
        reveal_strlit("2");
        reveal_strlit("3");
        reveal_strlit("4");
        reveal_strlit("5");
        reveal_strlit("6");
        reveal_strlit("7");
        reveal_strlit("8");
        reveal_strlit("9");
    }
    let text = if d == 0 {
        "0"
    } else if d == 1 {
        "1"
    } else if d == 2 {
        "2"
    } else if d == 3 {
        "3"
    } else if d == 4 {
        "4"
    } else if d == 5 {
        "5"
    } else if d == 6 {
        "6"
    } else if d == 7 {
        "7"
    } else if d == 8 {
        "8"
    } else {
        "9"
    };
    assert(text@ =~= seq![digit_char(d as int)]);
    text
}

/// Writes a number in decimal.
pub fn decimal_string(n: u64) -> (text: String)
    ensures
        text@ == decimal(n as nat),
    decreases n,
{
    if n < 10 {
        digit_str(n).to_owned()
    } else {
        let mut text = decimal_string(n / 10);
        text.append(digit_str(n % 10));
        assert(text@ =~= decimal(n as nat));
        text
    }
}

/// `hex::encode` on a byte slice: two lower-case hexadecimal digits for each
/// byte, in order.
#[verifier::external_body]
pub(crate) fn encode_hex(bytes: &[u8]) -> (text: String)
    ensures
        text@ == hex_text(bytes@),
{
    hex::encode(bytes)
}

/// The value of a hexadecimal digit in either case, if `c` is one.
pub open spec fn hex_value(c: char) -> Option<int> {
    let n = c as int;
    if 48 <= n <= 57 {
        Some(n - 48)
    } else if 97 <= n <= 102 {
        Some(n - 87)
    } else if 65 <= n <= 70 {
        Some(n - 55)
    } else {
        None
    }
}

/// Whether the text is an even number of hexadecimal digits.
pub open spec fn is_hex_text(text: Seq<char>) -> bool {
    &&& text.len() % 2 == 0
    &&& forall|i: int| 0 <= i < text.len() ==> hex_value(#[trigger] text[i]) is Some
}

/// The bytes that hexadecimal text stands for: one for each two digits, the
/// high half first.
pub open spec fn hex_bytes(text: Seq<char>) -> Seq<u8> {
    Seq::new(
        text.len() / 2,
        |i: int| (hex_value(text[2 * i]).unwrap() * 16 + hex_value(text[2 * i + 1]).unwrap()) as u8,
    )
}

/// The text without the prefix at its start, however often it is repeated
/// there.
pub open spec fn without_prefixes(text: Seq<char>, prefix: Seq<char>) -> Seq<char>
    decreases text.len(),
{
    if prefix.len() > 0 && text.len() >= prefix.len() && text.take(prefix.len() as int) == prefix {
        without_prefixes(text.skip(prefix.len() as int), prefix)
    } else {
        text
    }
}

/// What `str::to_lowercase` gives for a text.
pub uninterp spec fn lowercase_of(text: Seq<char>) -> Seq<char>;

/// The text an address is read from: in lower case, without `0x` in front.
pub open spec fn address_digits(text: Seq<char>) -> Seq<char> {
    without_prefixes(lowercase_of(text), "0x"@)
}

/// The wallet whose bytes are `bytes`.
pub open spec fn wallet_with(bytes: Seq<u8>) -> [u8; 20] {
    choose|wallet: [u8; 20]| wallet@ == bytes
}

/// The 32-byte identity whose bytes are `bytes`.
pub open spec fn address32_with(bytes: Seq<u8>) -> [u8; 32] {
    choose|address: [u8; 32]| address@ == bytes
}

/// The wallet that forty hexadecimal digits stand for; none for any other
/// text.
pub open spec fn wallet_of_hex(digits: Seq<char>) -> Option<[u8; 20]> {
    if digits.len() == 40 && is_hex_text(digits) {
        Some(wallet_with(hex_bytes(digits)))
    } else {
        None
    }
}

/// The caller identity that hexadecimal digits stand for: the 20-byte form
/// for forty digits, the 32-byte form for sixty-four; none for any other text.
pub open spec fn owner_of_hex(digits: Seq<char>) -> Option<AccountOwner> {
    if digits.len() == 40 && is_hex_text(digits) {
        Some(AccountOwner::Address20(wallet_with(hex_bytes(digits))))
    } else if digits.len() == 64 && is_hex_text(digits) {
        Some(AccountOwner::Address32(address32_with(hex_bytes(digits))))
    } else {
        None
    }
}

/// A wallet is the wallet with its own bytes.
pub proof fn lemma_wallet_with(wallet: [u8; 20])
    ensures
        wallet_with(wallet@) == wallet,
{
    let other = wallet_with(wallet@);
    assert(other@ == wallet@);
    assert(other =~= wallet);
}

/// A 32-byte identity is the one with its own bytes.
pub proof fn lemma_address32_with(address: [u8; 32])
    ensures
        address32_with(address@) == address,
{
    let other = address32_with(address@);
    assert(other@ == address@);
    assert(other =~= address);
}

/// The error of `hex::decode`; the library reads nothing from it.
#[verifier::external_type_specification]
#[verifier::external_body]
pub struct ExFromHexError(hex::FromHexError);

/// `hex::decode` on a string: accepted exactly where the text is an even
/// number of hexadecimal digits of either case, and then the bytes they
/// stand for, two digits to a byte.
#[verifier::external_body]
pub(crate) fn decode_hex(text: &str) -> (decoded: Result<Vec<u8>, hex::FromHexError>)
    ensures
        decoded is Ok <==> is_hex_text(text@),
        decoded is Ok ==> decoded->Ok_0@ == hex_bytes(text@),
{
    hex::decode(text)
}

/// `str::to_lowercase`: the text in lower case.
#[verifier::external_body]
pub(crate) fn lowercase(text: &str) -> (lower: String)
    ensures
        lower@ == lowercase_of(text@),
{
    text.to_lowercase()
}

/// `str::trim_start_matches` with a string pattern: the text without the
/// prefix at its start, however often it is repeated there.
#[verifier::external_body]
pub(crate) fn trim_prefixes<'a>(text: &'a str, prefix: &str) -> (rest: &'a str)
    requires
        prefix@.len() > 0,
    ensures
        rest@ == without_prefixes(text@, prefix@),
{
    text.trim_start_matches(prefix)
}

/// Reads a wallet from forty hexadecimal digits of either case.
pub fn wallet_from_hex(digits: &str) -> (wallet: Option<[u8; 20]>)
    ensures
        wallet == wallet_of_hex(digits@),
{
    match decode_hex(digits) {
        Ok(bytes) => {
            if bytes.len() != 20 {
                return None;
            }
            let wallet = wallet_of(&bytes);
            proof {
                lemma_wallet_with(wallet);
            }
            Some(wallet)
        },
        Err(_) => None,
    }
}

/// Reads a caller identity from forty or sixty-four hexadecimal digits of
/// either case.
pub fn owner_from_hex(digits: &str) -> (owner: Option<AccountOwner>)
    ensures
        owner == owner_of_hex(digits@),
{
    match decode_hex(digits) {
        Ok(bytes) => {
            if bytes.len() == 20 {
                let wallet = wallet_of(&bytes);
                proof {
                    lemma_wallet_with(wallet);
                }
                Some(AccountOwner::Address20(wallet))
            } else if bytes.len() == 32 {
                let mut address = [0u8; 32];
                let mut i: usize = 0;
                while i < 32
                    invariant
                        i <= 32,
                        bytes@.len() == 32,
                        forall|k: int| 0 <= k < i ==> address@[k] == bytes@[k],
                    decreases 32 - i,
                {
                    address[i] = bytes[i];
                    i += 1;
                }
                proof {
                    assert(address@ =~= bytes@);
                    lemma_address32_with(address);
                }
                Some(AccountOwner::Address32(address))
            } else {
                None
            }
        },
        Err(_) => None,
    }
}

/// Reads a wallet from its address: forty hexadecimal digits, with or
/// without `0x` in front, in either case.
pub fn parse_wallet_address(address: &str) -> (wallet: Option<[u8; 20]>)
    ensures
        wallet == wallet_of_hex(address_digits(address@)),
{
    let lower = lowercase(address);
    proof {
        reveal_strlit("0x");
    }
    let digits = trim_prefixes(lower.as_str(), "0x");
    wallet_from_hex(digits)
}

/// Reads a caller identity from its address: forty hexadecimal digits for
/// the 20-byte form, sixty-four for the 32-byte form, with or without `0x`
/// in front, in either case.
pub fn parse_account_owner(address: &str) -> (owner: Option<AccountOwner>)
    ensures
        owner == owner_of_hex(address_digits(address@)),
{
    let lower = lowercase(address);
    proof {
        reveal_strlit("0x");
    }
    let digits = trim_prefixes(lower.as_str(), "0x");
    owner_from_hex(digits)
}

} // verus!
