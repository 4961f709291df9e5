//! Messages as the pool sees them, with a mathematical model of each.
use vstd::prelude::*;

verus! {

/// An account identifier (an ID address).
pub type Address = u64;

/// The total supply, in atto units: two billion coins of 10^18 atto each.
pub const TOTAL_FILECOIN: u128 = 2_000_000_000_000_000_000_000_000_000;

/// The absolute minimum base fee, in atto units.
pub const MINIMUM_BASE_FEE: u128 = 100;

/// The largest gas limit a single message may carry.
pub const MAX_MESSAGE_GAS_LIMIT: u64 = 100_000_000;

/// The gas limit of a whole block.
pub const BLOCK_GAS_LIMIT: u64 = 10_000_000_000;

/// Scheme of a message signature.
#[derive(Clone, Copy, Debug, PartialEq, Eq, Structural)]
pub enum SignatureType {
    Secp256k1,
    Bls,
    Delegated,
}

/// Errors that admission and the pool's queries report.
#[derive(Clone, Debug, PartialEq, Eq)]
pub enum Error {
    SequenceTooLow,
    GasPriceTooLow,
    DuplicateSequence,
    TooManyPendingMessages(Address, bool),
    GasFeeCapTooLow,
    NotEnoughFunds,
    MessageTooBig,
    MessageValueTooHigh,
    GasLimitTooHigh,
    InvalidForBlockInclusion,
    SoftValidationFailure,
    InvalidFromAddr,
    InvalidSignature,
    InvalidSender,
    Other(String),
}

/// An unsigned message.
#[derive(Clone, Debug, PartialEq, Eq)]
pub struct Message {
    pub version: u64,
    pub to: Address,
    pub from: Address,
    pub sequence: u64,
    pub value: u128,
    pub method_num: u64,
    pub params: Vec<u8>,
    pub gas_limit: u64,
    pub gas_fee_cap: u128,
    pub gas_premium: u128,
}

/// The model of a [`Message`]: its fields, with the parameter bytes as a sequence.
pub struct MessageModel {
    pub version: u64,
    pub to: Address,
    pub from: Address,
    pub sequence: u64,
    pub value: u128,
    pub method_num: u64,
    pub params: Seq<u8>,
    pub gas_limit: u64,
    pub gas_fee_cap: u128,
    pub gas_premium: u128,
}

impl View for Message {
    type V = MessageModel;

    open spec fn view(&self) -> MessageModel {
        MessageModel {
            version: self.version,
            to: self.to,
            from: self.from,
            sequence: self.sequence,
            value: self.value,
            method_num: self.method_num,
            params: self.params@,
            gas_limit: self.gas_limit,
            gas_fee_cap: self.gas_fee_cap,
            gas_premium: self.gas_premium,
        }
    }
}

/// A signature together with its scheme.
#[derive(Clone, Debug, PartialEq, Eq)]
pub struct Signature {
    pub sig_type: SignatureType,
    pub bytes: Vec<u8>,
}

/// A message with the sender's signature.
#[derive(Clone, Debug, PartialEq, Eq)]
pub struct SignedMessage {
    pub message: Message,
    pub signature: Signature,
}

/// The model of a [`SignedMessage`].
pub struct SignedMessageModel {
    pub message: MessageModel,
    pub sig_type: SignatureType,
    pub sig: Seq<u8>,
}

impl View for SignedMessage {
    type V = SignedMessageModel;

    open spec fn view(&self) -> SignedMessageModel {
        SignedMessageModel {
            message: self.message@,
            sig_type: self.signature.sig_type,
            sig: self.signature.bytes@,
        }
    }
}

/// Two signed messages have the same content identifier. A BLS message is
/// identified by its unsigned message alone, since its signature is
/// aggregated into the block; any other by message and signature together.
pub open spec fn same_cid(a: SignedMessageModel, b: SignedMessageModel) -> bool {
    if a.sig_type == SignatureType::Bls && b.sig_type == SignatureType::Bls {
        a.message == b.message
    } else {
        a == b
    }
}

/// Funds the sender must hold for the message: its value plus the most it can pay for gas.
pub open spec fn required_funds(m: MessageModel) -> int {
    m.value + m.gas_fee_cap * m.gas_limit
}

/// Byte-wise equality of two byte vectors.
pub fn bytes_eq(a: &Vec<u8>, b: &Vec<u8>) -> (r: bool)
    ensures
        r == (a@ == b@),
{
    if a.len() != b.len() {
        return false;
    }
    let mut i: usize = 0;
    while i < a.len()
        invariant
            a.len() == b.len(),
            i <= a.len(),
            forall|j: int| 0 <= j < i ==> a@[j] == b@[j],
        decreases a.len() - i,
    {
        if a[i] != b[i] {
            return false;
        }
        i = i + 1;
    }
    assert(a@ =~= b@);
    true
}

/// Copies a byte vector.
pub fn copy_bytes(a: &Vec<u8>) -> (r: Vec<u8>)
    ensures
        r@ == a@,
{
    let mut r: Vec<u8> = Vec::new();
    let mut i: usize = 0;
    while i < a.len()
        invariant
            i <= a.len(),
            r@ == a@.subrange(0, i as int),
        decreases a.len() - i,
    {
        r.push(a[i]);
        i = i + 1;
        assert(r@ =~= a@.subrange(0, i as int));
    }
    assert(r@ =~= a@);
    r
}

impl Message {
    /// A copy of the message with the same model.
    pub fn copy(&self) -> (r: Message)
        ensures
            r@ == self@,
    {
        Message {
            version: self.version,
            to: self.to,
            from: self.from,
            sequence: self.sequence,
            value: self.value,
            method_num: self.method_num,
            params: copy_bytes(&self.params),
            gas_limit: self.gas_limit,
            gas_fee_cap: self.gas_fee_cap,
            gas_premium: self.gas_premium,
        }
    }

    /// Whether two messages have equal fields.
    pub fn same_as(&self, o: &Message) -> (r: bool)
        ensures
            r == (self@ == o@),
    {
        self.version == o.version && self.to == o.to && self.from == o.from && self.sequence
            == o.sequence && self.value == o.value && self.method_num == o.method_num
            && self.gas_limit == o.gas_limit && self.gas_fee_cap == o.gas_fee_cap
            && self.gas_premium == o.gas_premium && bytes_eq(&self.params, &o.params)
    }

    /// Whether `balance` covers [`required_funds`] of the message.
    pub fn funds_suffice(&self, balance: u128) -> (r: bool)
        ensures
            r == (balance >= required_funds(self@)),
    {
        match self.gas_fee_cap.checked_mul(self.gas_limit as u128) {
            None => false,
            Some(gas) => match self.value.checked_add(gas) {
                None => false,
                Some(total) => balance >= total,
            },
        }
    }
}

impl SignedMessage {
    /// A copy of the signed message with the same model.
    pub fn copy(&self) -> (r: SignedMessage)
        ensures
            r@ == self@,
    {
        SignedMessage {
            message: self.message.copy(),
            signature: Signature {
                sig_type: self.signature.sig_type,
                bytes: copy_bytes(&self.signature.bytes),
            },
        }
    }

    /// The sender.
    pub fn from(&self) -> (r: Address)
        ensures
            r == self@.message.from,
    {
        self.message.from
    }

    /// The sender's sequence number of the message.
    pub fn sequence(&self) -> (r: u64)
        ensures
            r == self@.message.sequence,
    {
        self.message.sequence
    }

    /// Whether the two messages have the same content identifier.
    pub fn same_cid_as(&self, o: &SignedMessage) -> (r: bool)
        ensures
            r == same_cid(self@, o@),
    {
        let both_bls = self.signature.sig_type == SignatureType::Bls && o.signature.sig_type
            == SignatureType::Bls;
        let same_msg = self.message.same_as(&o.message);
        if both_bls {
            same_msg
        } else {
            same_msg && self.signature.sig_type == o.signature.sig_type && bytes_eq(
                &self.signature.bytes,
                &o.signature.bytes,
            )
        }
    }
}

} // verus!

verus! {

/// A message as stored in the block store: unsigned, or with its signature.
#[derive(Clone, Debug, PartialEq, Eq)]
pub enum ChainMessage {
    Unsigned(Message),
    Signed(SignedMessage),
}

/// The model of a [`ChainMessage`].
pub enum ChainMessageModel {
    Unsigned(MessageModel),
    Signed(SignedMessageModel),
}

impl View for ChainMessage {
    type V = ChainMessageModel;

    open spec fn view(&self) -> ChainMessageModel {
        match self {
            ChainMessage::Unsigned(m) => ChainMessageModel::Unsigned(m@),
            ChainMessage::Signed(m) => ChainMessageModel::Signed(m@),
        }
    }
}

impl ChainMessage {
    /// Whether two stored messages are the same.
    pub fn same_as(&self, o: &ChainMessage) -> (r: bool)
        ensures
            r == (self@ == o@),
    {
        match (self, o) {
            (ChainMessage::Unsigned(a), ChainMessage::Unsigned(b)) => a.same_as(b),
            (ChainMessage::Signed(a), ChainMessage::Signed(b)) => a.message.same_as(&b.message)
                && a.signature.sig_type == b.signature.sig_type && bytes_eq(
                &a.signature.bytes,
                &b.signature.bytes,
            ),
            _ => false,
        }
    }
}

} // verus!
