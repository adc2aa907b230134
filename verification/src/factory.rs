//! Rules of the token factory that deploys auction instances: token
//! identifier validation, the minimum deposit formula, and the
//! storage-deposit bookkeeping. The factory's host side (storage
//! measurement, deployment) supplies the byte counts and balances
//! these functions decide over.

use vstd::prelude::*;

use crate::math::saturating_mul;

verus! {

/// Why the factory rejects a request.
#[derive(Clone, Copy, Debug, PartialEq, Eq, Structural)]
pub enum FactoryError {
    /// The token identifier holds a character outside `0-9a-z`.
    InvalidTokenId,
    /// A token with this name already exists.
    TokenNameTaken,
    /// The creator's storage balance does not cover the deployment.
    InsufficientBalance,
    /// The attached deposit does not cover the storage cost.
    DepositTooLow,
}

/// Fixed allowance added to the deployed code size when pricing a
/// deployment.
pub const EXTRA_BYTES: u64 = 10000;

/// Smallest payment units per whole unit of the payment asset.
pub const YOCTO_PER_NEAR: u128 = 1_000_000_000_000_000_000_000_000;

/// True when a token identifier character is an ASCII digit or a
/// lowercase ASCII letter.
pub open spec fn valid_token_id_char(c: char) -> bool {
    ('0' <= c && c <= '9') || ('a' <= c && c <= 'z')
}

/// A token identifier is valid when every character is an ASCII digit
/// or a lowercase ASCII letter.
pub open spec fn valid_token_id(s: Seq<char>) -> bool {
    forall|i: int| 0 <= i < s.len() ==> valid_token_id_char(s[i])
}

/// Whether one of the existing token names equals `n`.
pub open spec fn contains_name(names: Seq<Seq<char>>, n: Seq<char>) -> bool {
    exists|i: int| 0 <= i < names.len() && names[i] == n
}

/// The first reason to reject a token creation, if any: invalid
/// identifier, name collision, or an insufficient storage balance.
pub open spec fn creation_error(
    token_id: Seq<char>,
    names: Seq<Seq<char>>,
    name: Seq<char>,
    user_balance: int,
    required_balance: int,
) -> Option<FactoryError> {
    if !valid_token_id(token_id) {
        Some(FactoryError::InvalidTokenId)
    } else if contains_name(names, name) {
        Some(FactoryError::TokenNameTaken)
    } else if user_balance < required_balance {
        Some(FactoryError::InsufficientBalance)
    } else {
        None
    }
}

/// Checks that a token identifier consists only of ASCII digits and
/// lowercase ASCII letters.
pub fn is_valid_token_id(token_id: &String) -> (r: bool)
    ensures
        r == valid_token_id(token_id@),
{
    let s = token_id.as_str();
    if !s.is_ascii() {
        proof {
            let i = choose|i: int|
                0 <= i < s@.len() && !('\0' <= #[trigger] s@[i] <= '\u{7f}');
            assert(!valid_token_id_char(s@[i]));
        }
        return false;
    }
    let bytes = s.as_bytes();
    proof {
        vstd::string::is_ascii_spec_bytes(s);
    }
    let n = bytes.len();
    let mut i: usize = 0;
    while i < n
        invariant
            s@ == token_id@,
            n == bytes@.len(),
            bytes@ =~= Seq::new(s@.len(), |j: int| s@[j] as u8),
            vstd::utf8::is_ascii_chars(s@),
            0 <= i <= n,
            forall|j: int| 0 <= j < i ==> valid_token_id_char(s@[j]),
        decreases n - i,
    {
        let b = bytes[i];
        let ok = (48 <= b && b <= 57) || (97 <= b && b <= 122);
        proof {
            let c = s@[i as int];
            assert('\0' <= c <= '\u{7f}');
            assert(b == c as u8);
            assert(ok == valid_token_id_char(c));
        }
        if !ok {
            assert(!valid_token_id_char(token_id@[i as int]));
            return false;
        }
        i += 1;
    }
    true
}

/// The minimum balance a deployment needs: the per-byte storage cost
/// times the code size, the fixed allowance, and twice the argument
/// size, clamped at the largest representable amount.
pub fn min_attached_balance(
    storage_byte_cost: u128,
    code_len: u64,
    args_len: u64,
) -> (r: u128)
    requires
        code_len + EXTRA_BYTES + 2 * args_len <= u64::MAX,
    ensures
        r == if storage_byte_cost * (code_len + EXTRA_BYTES + 2 * args_len)
            > u128::MAX {
            u128::MAX as int
        } else {
            storage_byte_cost * (code_len + EXTRA_BYTES + 2 * args_len)
        },
{
    let total_bytes = code_len + EXTRA_BYTES + 2 * args_len;
    saturating_mul(storage_byte_cost, total_bytes as u128)
}

/// Whether one of the existing token names equals `name`.
pub fn name_taken(existing: &Vec<String>, name: &String) -> (r: bool)
    ensures
        r == contains_name(existing.deep_view(), name@),
{
    let ghost dv = existing.deep_view();
    let n = existing.len();
    let mut i: usize = 0;
    while i < n
        invariant
            n == existing@.len(),
            dv == existing.deep_view(),
            0 <= i <= n,
            forall|k: int| 0 <= k < i ==> #[trigger] dv[k] != name@,
        decreases n - i,
    {
        if existing[i].eq(name) {
            proof {
                assert(dv[i as int] == name@);
            }
            return true;
        }
        i += 1;
    }
    false
}

/// Validates a token creation: the identifier, the name's uniqueness
/// among the existing tokens, and the creator's storage balance
/// against the required one, in that order.
pub fn validate_token_creation(
    token_id: &String,
    existing_names: &Vec<String>,
    name: &String,
    user_balance: u128,
    required_balance: u128,
) -> (r: Result<(), FactoryError>)
    ensures
        match creation_error(
            token_id@,
            existing_names.deep_view(),
            name@,
            user_balance as int,
            required_balance as int,
        ) {
            Some(e) => r == Err::<(), FactoryError>(e),
            None => r == Ok::<(), FactoryError>(()),
        },
{
    if !is_valid_token_id(token_id) {
        return Err(FactoryError::InvalidTokenId);
    }
    if name_taken(existing_names, name) {
        return Err(FactoryError::TokenNameTaken);
    }
    if user_balance < required_balance {
        return Err(FactoryError::InsufficientBalance);
    }
    Ok(())
}

/// The storage-deposit bookkeeping: a known account accumulates the
/// deposit; a new account must cover the storage cost, expressed in
/// whole payment units, and keeps the excess.
pub fn storage_deposit_outcome(
    previous: Option<u128>,
    deposit: u128,
    storage_balance_cost: u64,
) -> (r: Result<u128, FactoryError>)
    requires
        storage_balance_cost * YOCTO_PER_NEAR <= u128::MAX,
    ensures
        match previous {
            Some(p) => r == Ok::<u128, FactoryError>(
                (if p + deposit > u128::MAX {
                    u128::MAX as int
                } else {
                    p + deposit
                }) as u128,
            ),
            None => if deposit < storage_balance_cost * YOCTO_PER_NEAR {
                r == Err::<u128, FactoryError>(FactoryError::DepositTooLow)
            } else {
                r == Ok::<u128, FactoryError>(
                    (deposit - storage_balance_cost * YOCTO_PER_NEAR) as u128,
                )
            },
        },
{
    match previous {
        Some(p) => Ok(p.saturating_add(deposit)),
        None => {
            let cost = (storage_balance_cost as u128) * YOCTO_PER_NEAR;
            if deposit < cost {
                Err(FactoryError::DepositTooLow)
            } else {
                Ok(deposit.saturating_sub(cost))
            }
        },
    }
}

} // verus!
