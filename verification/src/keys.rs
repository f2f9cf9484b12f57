//! Executable equality on the keys the store is indexed by.

use vstd::prelude::*;
use crate::types::AccountOwner;

verus! {

/// Whether two wallets are the same twenty bytes.
pub fn same_wallet(a: &[u8; 20], b: &[u8; 20]) -> (same: bool)
    ensures
        same == (*a == *b),
{
    let mut i: usize = 0;
    while i < 20
        invariant
            i <= 20,
            forall|j: int| 0 <= j < i ==> a@[j] == b@[j],
        decreases 20 - i,
    {
        if a[i] != b[i] {
            return false;
        }
        i += 1;
    }
    assert(*a =~= *b);
    true
}

/// Whether two 32-byte identities are the same bytes.
pub fn same_address32(a: &[u8; 32], b: &[u8; 32]) -> (same: bool)
    ensures
        same == (*a == *b),
{
    let mut i: usize = 0;
    while i < 32
        invariant
            i <= 32,
            forall|j: int| 0 <= j < i ==> a@[j] == b@[j],
        decreases 32 - i,
    {
        if a[i] != b[i] {
            return false;
        }
        i += 1;
    }
    assert(*a =~= *b);
    true
}

/// Whether two caller identities are the same.
pub fn same_owner(a: &AccountOwner, b: &AccountOwner) -> (same: bool)
    ensures
        same == (*a == *b),
{
    match (a, b) {
        (AccountOwner::Reserved(x), AccountOwner::Reserved(y)) => *x == *y,
        (AccountOwner::Address32(x), AccountOwner::Address32(y)) => same_address32(x, y),
        (AccountOwner::Address20(x), AccountOwner::Address20(y)) => same_wallet(x, y),
        _ => false,
    }
}

/// The wallet made of twenty bytes.
pub(crate) fn wallet_of(bytes: &Vec<u8>) -> (wallet: [u8; 20])
    requires
        bytes@.len() == 20,
    ensures
        wallet@ == bytes@,
{
    let mut wallet = [0u8; 20];
    let mut i: usize = 0;
    while i < 20
        invariant
            i <= 20,
            bytes@.len() == 20,
            forall|k: int| 0 <= k < i ==> wallet@[k] == bytes@[k],
        decreases 20 - i,
    {
        wallet[i] = bytes[i];
        i += 1;
    }
    assert(wallet@ =~= bytes@);
    wallet
}

} // verus!
