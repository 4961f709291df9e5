//! Static admission checks on a single message.
use crate::message::{
    BLOCK_GAS_LIMIT, Error, MINIMUM_BASE_FEE, Message, MessageModel, SignedMessage,
    TOTAL_FILECOIN,
};
use vstd::prelude::*;

verus! {

/// Serialized size of a message from which it is refused, in bytes (64 KiB).
pub const MAX_MESSAGE_SIZE: usize = 65536;

/// Numerator of the base-fee decay over the ten-block horizon: 7^10.
pub const LOWER_BOUND_NUM: u128 = 282475249;

/// Denominator of the base-fee decay over the ten-block horizon: 8^10.
pub const LOWER_BOUND_DENOM: u128 = 1073741824;

/// A block header, as far as admission reads it.
#[derive(Clone, Copy, Debug, PartialEq, Eq, Structural)]
pub struct BlockHeader {
    pub miner: u64,
    pub parent_base_fee: u128,
}

/// Sibling blocks at one epoch.
#[derive(Clone, Debug)]
pub struct Tipset {
    pub epoch: i64,
    pub blocks: Vec<BlockHeader>,
}

/// Gas prices that decide the minimum gas of a message on chain.
#[derive(Clone, Copy, Debug, PartialEq, Eq, Structural)]
pub struct PriceList {
    pub compute_base: u64,
    pub storage_base: u64,
    pub storage_per_byte: u64,
    pub storage_multiplier: u64,
}

impl PriceList {
    /// Prices of the current network version.
    pub fn current() -> (r: PriceList)
        ensures
            r.compute_base == 38863,
            r.storage_base == 36,
            r.storage_per_byte == 1,
            r.storage_multiplier == 1300,
    {
        PriceList {
            compute_base: 38863,
            storage_base: 36,
            storage_per_byte: 1,
            storage_multiplier: 1300,
        }
    }

    /// Minimum gas for including a message of `len` serialized bytes.
    pub open spec fn on_chain_message_spec(self, len: int) -> int {
        self.compute_base + (self.storage_base + self.storage_per_byte * len)
            * self.storage_multiplier
    }

    /// Minimum gas for including a message of `len` serialized bytes, or
    /// `None` where it exceeds every gas limit.
    pub fn on_chain_message(&self, len: usize) -> (r: Option<u64>)
        ensures
            r matches Some(g) ==> g == self.on_chain_message_spec(len as int),
            r is None ==> self.on_chain_message_spec(len as int) > u64::MAX,
    {
        let a = self.storage_per_byte as u128;
        let b = len as u128;
        assert(a * b <= 0xffff_ffff_ffff_ffff * 0xffff_ffff_ffff_ffff) by (nonlinear_arith)
            requires
                a <= 0xffff_ffff_ffff_ffff,
                b <= 0xffff_ffff_ffff_ffff,
        ;
        let per = a * b;
        let storage = (self.storage_base as u128) + per;
        let m = self.storage_multiplier as u128;
        match storage.checked_mul(m) {
            None => None,
            Some(s) => match s.checked_add(self.compute_base as u128) {
                None => None,
                Some(total) => {
                    if total > u64::MAX as u128 {
                        None
                    } else {
                        Some(total as u64)
                    }
                },
            },
        }
    }
}

/// The base fee projected over ten blocks of the largest decrease
/// (a factor of 7/8 each), rounded down.
pub open spec fn base_fee_lower_bound_spec(base_fee: int) -> int {
    base_fee * (LOWER_BOUND_NUM as int) / (LOWER_BOUND_DENOM as int)
}

/// The conservative lower bound on the base fee over the next ten blocks.
pub fn base_fee_lower_bound(base_fee: u128) -> (r: u128)
    ensures
        r == base_fee_lower_bound_spec(base_fee as int),
{
    let q = base_fee / LOWER_BOUND_DENOM;
    let rem = base_fee % LOWER_BOUND_DENOM;
    assert(base_fee * 282475249 / 1073741824 == q * 282475249 + rem * 282475249 / 1073741824)
        by (nonlinear_arith)
        requires
            q == base_fee / 1073741824,
            rem == base_fee % 1073741824,
    ;
    assert(q * 282475249 <= base_fee) by (nonlinear_arith)
        requires
            q == base_fee / 1073741824,
    ;
    q * LOWER_BOUND_NUM + rem * LOWER_BOUND_NUM / LOWER_BOUND_DENOM
}

/// Validity of a message for inclusion in a block, given the minimum gas it
/// must carry: version 0, premium no higher than the fee cap, and a gas limit
/// between the minimum and the block gas limit.
pub open spec fn valid_for_block_inclusion_spec(m: MessageModel, min_gas: int) -> bool {
    &&& m.version == 0
    &&& m.gas_premium <= m.gas_fee_cap
    &&& m.gas_limit <= BLOCK_GAS_LIMIT
    &&& m.gas_limit >= min_gas
}

/// Checks [`valid_for_block_inclusion_spec`].
pub fn valid_for_block_inclusion(m: &Message, min_gas: u64) -> (r: Result<(), Error>)
    ensures
        r is Ok <==> valid_for_block_inclusion_spec(m@, min_gas as int),
        r is Err ==> r == Err::<(), Error>(Error::InvalidForBlockInclusion),
{
    if m.version != 0 || m.gas_premium > m.gas_fee_cap || m.gas_limit > BLOCK_GAS_LIMIT
        || m.gas_limit < min_gas {
        return Err(Error::InvalidForBlockInclusion);
    }
    Ok(())
}

/// The error, if any, of the static checks on a message of `encoded_len`
/// serialized bytes whose signature check came out `signature_valid`, in the
/// order they are made.
pub open spec fn check_message_spec(m: MessageModel, encoded_len: int, signature_valid: bool) -> Option<Error> {
    if encoded_len >= MAX_MESSAGE_SIZE {
        Some(Error::MessageTooBig)
    } else if !valid_for_block_inclusion_spec(m, 0) {
        Some(Error::InvalidForBlockInclusion)
    } else if m.value > TOTAL_FILECOIN {
        Some(Error::MessageValueTooHigh)
    } else if m.gas_fee_cap < MINIMUM_BASE_FEE {
        Some(Error::GasFeeCapTooLow)
    } else if !signature_valid {
        Some(Error::InvalidSignature)
    } else {
        None
    }
}

/// Static checks: serialized size, validity for block inclusion, value,
/// minimum fee cap and the signature.
pub fn check_message(msg: &SignedMessage, encoded_len: usize, signature_valid: bool) -> (r: Result<(), Error>)
    ensures
        match check_message_spec(msg@.message, encoded_len as int, signature_valid) {
            None => r is Ok,
            Some(e) => r == Err::<(), Error>(e),
        },
{
    if encoded_len >= MAX_MESSAGE_SIZE {
        return Err(Error::MessageTooBig);
    }
    valid_for_block_inclusion(&msg.message, 0)?;
    if msg.message.value > TOTAL_FILECOIN {
        return Err(Error::MessageValueTooHigh);
    }
    if msg.message.gas_fee_cap < MINIMUM_BASE_FEE {
        return Err(Error::GasFeeCapTooLow);
    }
    if !signature_valid {
        return Err(Error::InvalidSignature);
    }
    Ok(())
}

/// The outcome of the checks made just before admission, against the
/// current tipset: `Ok(publish)` or the error.
pub open spec fn verify_before_add_spec(
    m: MessageModel,
    chain_length: int,
    cur_ts: Seq<BlockHeader>,
    local: bool,
    prices: PriceList,
) -> Result<bool, Error> {
    let min_gas = prices.on_chain_message_spec(chain_length);
    if !valid_for_block_inclusion_spec(m, min_gas) {
        Err(Error::InvalidForBlockInclusion)
    } else if cur_ts.len() > 0 && m.gas_fee_cap < base_fee_lower_bound_spec(
        cur_ts[0].parent_base_fee as int,
    ) {
        if local {
            Ok(false)
        } else {
            Err(Error::SoftValidationFailure)
        }
    } else {
        Ok(local)
    }
}

/// Checks a message against the minimum gas for its serialized length and
/// against the base fee lower bound of the current tipset. Returns whether
/// the message should be published: a local message whose fee cap is below
/// the bound is admitted but not published; a remote one is refused.
pub fn verify_msg_before_add(
    m: &SignedMessage,
    chain_length: usize,
    cur_ts: &Tipset,
    local: bool,
    prices: &PriceList,
) -> (r: Result<bool, Error>)
    ensures
        r == verify_before_add_spec(m@.message, chain_length as int, cur_ts.blocks@, local, *prices),
{
    let min_gas = match prices.on_chain_message(chain_length) {
        Some(g) => g,
        None => {
            return Err(Error::InvalidForBlockInclusion);
        },
    };
    valid_for_block_inclusion(&m.message, min_gas)?;
    if cur_ts.blocks.len() > 0 {
        let lower = base_fee_lower_bound(cur_ts.blocks[0].parent_base_fee);
        if m.message.gas_fee_cap < lower {
            if local {
                return Ok(false);
            }
            return Err(Error::SoftValidationFailure);
        }
    }
    Ok(local)
}

} // verus!
