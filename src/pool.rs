//! The message pool: pending messages of every sender, admission against
//! chain state, and reconciliation with head changes.
use crate::admission::{BlockHeader, PriceList, Tipset, base_fee_lower_bound, base_fee_lower_bound_spec, check_message, verify_before_add_spec, verify_msg_before_add, check_message_spec};
use crate::message::{
    bytes_eq, Address, ChainMessage, ChainMessageModel, Error, MAX_MESSAGE_GAS_LIMIT, Message, MessageModel, SignatureType, SignedMessageModel,
    SignedMessage, required_funds,
};
use crate::msg_set::{MsgSet, PendingLimits};
use std::collections::HashMap;
use vstd::prelude::*;
use vstd::std_specs::iter::IteratorSpec;

verus! {

broadcast use vstd::std_specs::hash::group_hash_axioms;

/// Capacity of the cache of BLS signatures.
pub const BLS_SIG_CACHE_SIZE: usize = 40000;

/// The block store into which the pool persists admitted messages.
pub trait Provider {
    /// Whether the store holds `m`.
    spec fn has_message(&self, m: ChainMessageModel) -> bool;

    /// Persists a message; idempotent.
    fn put_message(&mut self, m: &ChainMessage) -> (r: Result<(), Error>)
        ensures
            r is Ok ==> final(self).has_message(m@),
            forall|x: ChainMessageModel| #[trigger] old(self).has_message(x) ==> final(self).has_message(x),
    ;
}

/// A block store held in memory.
pub struct MemoryProvider {
    pub messages: Vec<ChainMessage>,
}

impl MemoryProvider {
    pub fn new() -> (r: MemoryProvider)
        ensures
            r.messages@.len() == 0,
    {
        MemoryProvider { messages: Vec::new() }
    }

    /// Whether the store holds a message equal to `m`.
    pub fn contains(&self, m: &ChainMessage) -> (r: bool)
        ensures
            r == self.has_message(m@),
    {
        let mut i: usize = 0;
        while i < self.messages.len()
            invariant
                i <= self.messages.len(),
                forall|j: int| 0 <= j < i ==> self.messages@[j]@ != m@,
            decreases self.messages.len() - i,
        {
            if self.messages[i].same_as(m) {
                return true;
            }
            i = i + 1;
        }
        false
    }
}

impl Provider for MemoryProvider {
    open spec fn has_message(&self, m: ChainMessageModel) -> bool {
        exists|i: int| 0 <= i < self.messages@.len() && #[trigger] self.messages@[i]@ == m
    }

    fn put_message(&mut self, m: &ChainMessage) -> (r: Result<(), Error>) {
        if !self.contains(m) {
            let c = match m {
                ChainMessage::Unsigned(u) => ChainMessage::Unsigned(u.copy()),
                ChainMessage::Signed(s) => ChainMessage::Signed(s.copy()),
            };
            self.messages.push(c);
            assert(self.messages@[self.messages@.len() - 1]@ == m@);
            assert forall|x: ChainMessageModel| #[trigger] old(self).has_message(x) implies self.has_message(x) by {
                let i = choose|i: int| 0 <= i < old(self).messages@.len() && #[trigger] old(self).messages@[i]@ == x;
                assert(self.messages@[i] == old(self).messages@[i]);
            }
        }
        Ok(())
    }
}

/// Relies on `slice::sort_by_key`, with the sequence number as the key: the
/// result is a permutation of the input, ordered by sequence.
#[verifier::external_body]
fn sort_by_sequence(v: &mut Vec<SignedMessage>)
    ensures
        final(v)@.to_multiset() == old(v)@.to_multiset(),
        final(v)@.len() == old(v)@.len(),
        forall|i: int, j: int|
            0 <= i < j < final(v)@.len() ==> final(v)@[i].message.sequence <= final(v)@[j].message.sequence,
{
    v.sort_by_key(|m| m.message.sequence);
}

/// Seconds between two periodic republications: ten block delays plus the
/// propagation delay, or `None` where that does not fit in 64 bits.
pub fn republish_interval(block_delay: u64, propagation_delay: u64) -> (r: Option<u64>)
    ensures
        r is None <==> 10 * block_delay + propagation_delay > u64::MAX,
        r matches Some(x) ==> x == 10 * block_delay + propagation_delay,
{
    match block_delay.checked_mul(10) {
        None => None,
        Some(d) => d.checked_add(propagation_delay),
    }
}

/// Refuses a gas limit above the per-message maximum.
pub fn check_gas_limit(m: &Message) -> (r: Result<(), Error>)
    ensures
        r is Ok <==> m@.gas_limit <= MAX_MESSAGE_GAS_LIMIT,
        r is Err ==> r == Err::<(), Error>(Error::GasLimitTooHigh),
{
    if m.gas_limit > MAX_MESSAGE_GAS_LIMIT {
        Err(Error::GasLimitTooHigh)
    } else {
        Ok(())
    }
}

/// Sequence and balance of an account as of the current tipset, and whether
/// the account may send top-level messages under the current network version.
#[derive(Clone, Copy, Debug, PartialEq, Eq, Structural)]
pub struct SenderState {
    pub sequence: u64,
    pub balance: u128,
    pub valid_sender: bool,
}

/// Pending messages of every sender, with what admission needs.
pub struct MessagePool {
    pub pending: HashMap<Address, MsgSet>,
    pub local_addrs: Vec<Address>,
    pub local_msgs: Vec<SignedMessage>,
    pub cur_tipset: Tipset,
    pub limits: PendingLimits,
    pub prices: PriceList,
    pub bls_sig_cache: Vec<SignedMessage>,
}

impl MessagePool {
    /// Each sender's set is well formed, holds only that sender's messages,
    /// and stays within the trusted ceiling.
    pub open spec fn wf(&self) -> bool {
        forall|a: Address| #[trigger] self.pending@.contains_key(a) ==> {
            &&& self.pending@[a].wf()
            &&& self.pending@[a].len() <= self.limits.trusted
            &&& forall|k: u64| #[trigger] self.pending@[a].msgs@.contains_key(k)
                ==> self.pending@[a].msgs@[k]@.message.from == a
        }
    }

    /// Every pending message lies below its sender's next sequence.
    pub open spec fn sequences_below_next(&self) -> bool {
        forall|a: Address| #[trigger] self.pending@.contains_key(a) ==> self.pending@[a].below_next()
    }

    /// The pending message of `a` at sequence `k`, if any.
    pub open spec fn pending_at(&self, a: Address, k: u64) -> Option<SignedMessage> {
        if self.pending@.contains_key(a) && self.pending@[a].msgs@.contains_key(k) {
            Some(self.pending@[a].msgs@[k])
        } else {
            None
        }
    }

    /// An empty pool at `cur_tipset`.
    pub fn new(cur_tipset: Tipset, limits: PendingLimits, prices: PriceList) -> (r: MessagePool)
        ensures
            r.wf(),
            r.sequences_below_next(),
            r.pending@ == Map::<Address, MsgSet>::empty(),
            r.limits == limits,
            r.prices == prices,
            r.local_msgs@.len() == 0,
            r.local_addrs@.len() == 0,
            r.cur_tipset == cur_tipset,
            r.bls_sig_cache@.len() == 0,
    {
        MessagePool {
            pending: HashMap::new(),
            local_addrs: Vec::new(),
            local_msgs: Vec::new(),
            cur_tipset,
            limits,
            prices,
            bls_sig_cache: Vec::new(),
        }
    }

    /// Everything but the pending map and the signature cache is as before.
    pub open spec fn same_config(&self, o: &MessagePool) -> bool {
        &&& self.local_addrs == o.local_addrs
        &&& self.local_msgs == o.local_msgs
        &&& self.cur_tipset == o.cur_tipset
        &&& self.limits == o.limits
        &&& self.prices == o.prices
    }

    /// Remembers the signature of a BLS message, dropping the oldest entry
    /// when the cache is full.
    fn cache_bls_signature(&mut self, msg: &SignedMessage)
        ensures
            final(self).pending == old(self).pending,
            final(self).same_config(old(self)),
            final(self).bls_sig_cache@.len() <= BLS_SIG_CACHE_SIZE || final(self).bls_sig_cache@.len()
                <= old(self).bls_sig_cache@.len(),
            msg@.sig_type == SignatureType::Bls ==> final(self).bls_sig_cache@.len() > 0
                && final(self).bls_sig_cache@.last()@ == msg@,
    {
        if msg.signature.sig_type == SignatureType::Bls {
            if self.bls_sig_cache.len() >= BLS_SIG_CACHE_SIZE {
                self.bls_sig_cache.remove(0);
            }
            self.bls_sig_cache.push(msg.copy());
        }
    }

    /// The signed form of a BLS message recovered from the cache: the most
    /// recent entry whose message is `m`.
    pub fn recover_sig(&self, m: &Message) -> (r: Option<SignedMessage>)
        ensures
            r matches Some(s) ==> s@ == latest_cached(self.bls_sig_cache@, m@),
            r matches Some(s) ==> s@.message == m@ && exists|i: int|
                0 <= i < self.bls_sig_cache@.len() && #[trigger] self.bls_sig_cache@[i]@ == s@,
            r is None ==> forall|i: int|
                0 <= i < self.bls_sig_cache@.len() ==> #[trigger] self.bls_sig_cache@[i]@.message != m@,
    {
        let mut i: usize = self.bls_sig_cache.len();
        assert(self.bls_sig_cache@.take(i as int) =~= self.bls_sig_cache@);
        while i > 0
            invariant
                i <= self.bls_sig_cache@.len(),
                forall|j: int| i <= j < self.bls_sig_cache@.len() ==> #[trigger] self.bls_sig_cache@[j]@.message != m@,
                latest_cached(self.bls_sig_cache@, m@) == latest_cached(self.bls_sig_cache@.take(i as int), m@),
            decreases i,
        {
            proof {
                let c = self.bls_sig_cache@;
                assert(c.take(i as int).drop_last() =~= c.take(i - 1));
                assert(c.take(i as int).last() == c[i - 1]);
            }
            i = i - 1;
            if self.bls_sig_cache[i].message.same_as(m) {
                let s = self.bls_sig_cache[i].copy();
                assert(self.bls_sig_cache@[i as int]@ == s@);
                return Some(s);
            }
        }
        None
    }

    /// What admitting `msg` into the pending map does: the sender's set
    /// admits it as a trusted message; a sender with no set gets a new one
    /// expecting `sequence`, kept only when the message is admitted.
    pub open spec fn insert_outcome(
        pre: Map<Address, MsgSet>,
        post: Map<Address, MsgSet>,
        msg: SignedMessage,
        sequence: u64,
        ceiling: u64,
        r: Result<(), Error>,
    ) -> bool {
        let a = msg@.message.from;
        let seq = msg@.message.sequence;
        if pre.contains_key(a) {
            &&& post == pre.insert(a, post[a])
            &&& MsgSet::add_outcome(pre[a], post[a], msg, ceiling, true, r)
        } else if ceiling == 0 {
            &&& r == Err::<(), Error>(Error::TooManyPendingMessages(a, true))
            &&& post == pre
        } else {
            &&& r is Ok
            &&& post == pre.insert(a, post[a])
            &&& post[a].msgs@ == Map::<u64, SignedMessage>::empty().insert(seq, msg)
            &&& post[a].next_sequence == seq + 1
        }
    }

    /// Admits `msg` into its sender's set, creating the set when needed.
    pub fn insert_pending(&mut self, msg: SignedMessage, sequence: u64) -> (r: Result<(), Error>)
        requires
            old(self).wf(),
            msg@.message.sequence < u64::MAX,
        ensures
            final(self).wf(),
            old(self).sequences_below_next() ==> final(self).sequences_below_next(),
            final(self).same_config(old(self)),
            final(self).bls_sig_cache == old(self).bls_sig_cache,
            Self::insert_outcome(old(self).pending@, final(self).pending@, msg, sequence, old(self).limits.trusted, r),
    {
        let from = msg.from();
        let limits = self.limits;
        match self.pending.remove(&from) {
            Some(mut mset) => {
                let r = mset.add_trusted(&limits, msg);
                self.pending.insert(from, mset);
                assert(self.pending@ =~= old(self).pending@.insert(from, self.pending@[from]));
                r
            },
            None => {
                let mut mset = MsgSet::new(sequence);
                match mset.add_trusted(&limits, msg) {
                    Ok(()) => {
                        proof {
                            assert(!old(self).pending@.contains_key(from));
                            assert(mset.msgs@ =~= Map::<u64, SignedMessage>::empty().insert(msg@.message.sequence, msg));
                        }
                        self.pending.insert(from, mset);
                        assert(self.pending@[from] == mset);
                        Ok(())
                    },
                    Err(e) => {
                        assert(self.pending@ =~= old(self).pending@);
                        Err(e)
                    },
                }
            },
        }
    }

    /// Caches a BLS signature, refuses a gas limit above the per-message
    /// maximum, persists the signed and the unsigned form, then admits the
    /// message into its sender's set.
    pub fn add_helper<P: Provider>(&mut self, api: &mut P, msg: SignedMessage, sequence: u64) -> (r: Result<(), Error>)
        requires
            old(self).wf(),
            msg@.message.sequence < u64::MAX,
        ensures
            final(self).wf(),
            old(self).sequences_below_next() ==> final(self).sequences_below_next(),
            final(self).same_config(old(self)),
            Self::helper_outcome(*old(self), *final(self), *old(api), *final(api), msg, sequence, r),
    {
        self.cache_bls_signature(&msg);
        match check_gas_limit(&msg.message) {
            Ok(()) => {},
            Err(e) => {
                return Err(e);
            },
        }
        let signed = ChainMessage::Signed(msg.copy());
        api.put_message(&signed)?;
        let unsigned = ChainMessage::Unsigned(msg.message.copy());
        api.put_message(&unsigned)?;
        self.insert_pending(msg, sequence)
    }

    /// The outcome of [`MessagePool::add_helper`]: a BLS message is cached
    /// whatever follows; a gas limit above the maximum is refused before the
    /// block store is touched; a failure of the block store leaves the
    /// pending map as it was; otherwise both forms of the message are in the
    /// store and the pending map changes as [`MessagePool::insert_outcome`] says.
    pub open spec fn helper_outcome<P: Provider>(
        pre: MessagePool,
        post: MessagePool,
        api_pre: P,
        api: P,
        msg: SignedMessage,
        sequence: u64,
        r: Result<(), Error>,
    ) -> bool {
        &&& (msg@.sig_type == SignatureType::Bls ==> post.bls_sig_cache@.len() > 0
            && post.bls_sig_cache@.last()@ == msg@)
        &&& if msg@.message.gas_limit > MAX_MESSAGE_GAS_LIMIT {
            r == Err::<(), Error>(Error::GasLimitTooHigh) && post.pending@ == pre.pending@ && api == api_pre
        } else {
            (r is Err && post.pending@ == pre.pending@) || {
                &&& api.has_message(ChainMessageModel::Signed(msg@))
                &&& api.has_message(ChainMessageModel::Unsigned(msg@.message))
                &&& Self::insert_outcome(pre.pending@, post.pending@, msg, sequence, pre.limits.trusted, r)
            }
        }
    }

    /// The outcome of [`MessagePool::add_tipset`] for a sender in state
    /// `sender`: `Ok(publish)` once every check passes and the message is
    /// admitted, else the first error; the pending map changes only through
    /// [`MessagePool::add_helper`].
    pub open spec fn tipset_outcome<P: Provider>(
        pre: MessagePool,
        post: MessagePool,
        api_pre: P,
        api: P,
        msg: SignedMessage,
        encoded_len: int,
        sender: SenderState,
        local: bool,
        r: Result<bool, Error>,
    ) -> bool {
        let m = msg@.message;
        if sender.sequence > m.sequence {
            r == Err::<bool, Error>(Error::SequenceTooLow) && Self::untouched(pre, post, api_pre, api)
        } else if !sender.valid_sender {
            r == Err::<bool, Error>(Error::InvalidSender) && Self::untouched(pre, post, api_pre, api)
        } else {
            match verify_before_add_spec(m, encoded_len, pre.cur_tipset.blocks@, local, pre.prices) {
                Err(e) => r == Err::<bool, Error>(e) && Self::untouched(pre, post, api_pre, api),
                Ok(publish) => if sender.balance < required_funds(m) {
                    r == Err::<bool, Error>(Error::NotEnoughFunds) && Self::untouched(pre, post, api_pre, api)
                } else {
                    exists|rh: Result<(), Error>| {
                        &&& #[trigger] Self::helper_outcome(pre, post, api_pre, api, msg, sender.sequence, rh)
                        &&& match rh {
                            Ok(()) => r == Ok::<bool, Error>(publish),
                            Err(e) => r == Err::<bool, Error>(e),
                        }
                    }
                },
            }
        }
    }

    /// Neither the pending map, the signature cache nor the block store changed.
    pub open spec fn untouched<P: Provider>(pre: MessagePool, post: MessagePool, api_pre: P, api: P) -> bool {
        &&& post.pending@ == pre.pending@
        &&& post.bls_sig_cache == pre.bls_sig_cache
        &&& api == api_pre
    }

    /// Checks `msg` against its sender's state and the current tipset, then
    /// admits it. Returns whether the message should be published.
    pub fn add_tipset<P: Provider>(
        &mut self,
        api: &mut P,
        msg: SignedMessage,
        encoded_len: usize,
        sender: SenderState,
        local: bool,
    ) -> (r: Result<bool, Error>)
        requires
            old(self).wf(),
            msg@.message.sequence < u64::MAX,
        ensures
            final(self).wf(),
            old(self).sequences_below_next() ==> final(self).sequences_below_next(),
            final(self).same_config(old(self)),
            Self::tipset_outcome(*old(self), *final(self), *old(api), *final(api), msg, encoded_len as int, sender, local, r),
    {
        if sender.sequence > msg.message.sequence {
            return Err(Error::SequenceTooLow);
        }
        if !sender.valid_sender {
            return Err(Error::InvalidSender);
        }
        let publish = verify_msg_before_add(&msg, encoded_len, &self.cur_tipset, local, &self.prices)?;
        if !msg.message.funds_suffice(sender.balance) {
            return Err(Error::NotEnoughFunds);
        }
        let rh = self.add_helper(api, msg, sender.sequence);
        match rh {
            Ok(()) => Ok(publish),
            Err(e) => Err(e),
        }
    }

    /// Records a locally originated message, unless an equal one is already
    /// recorded, and its sender.
    fn add_local(&mut self, m: SignedMessage)
        ensures
            final(self).pending == old(self).pending,
            final(self).bls_sig_cache == old(self).bls_sig_cache,
            final(self).cur_tipset == old(self).cur_tipset,
            final(self).limits == old(self).limits,
            final(self).prices == old(self).prices,
            final(self).local_addrs@ == old(self).local_addrs@.push(m@.message.from),
            Self::holds_local(old(self).local_msgs@, m@) ==> final(self).local_msgs == old(self).local_msgs,
            !Self::holds_local(old(self).local_msgs@, m@) ==> final(self).local_msgs@ == old(self).local_msgs@.push(m),
    {
        self.local_addrs.push(m.from());
        let mut i: usize = 0;
        while i < self.local_msgs.len()
            invariant
                i <= self.local_msgs@.len(),
                self.local_msgs == old(self).local_msgs,
                self.pending == old(self).pending,
                self.bls_sig_cache == old(self).bls_sig_cache,
                self.cur_tipset == old(self).cur_tipset,
                self.limits == old(self).limits,
                self.prices == old(self).prices,
                self.local_addrs@ == old(self).local_addrs@.push(m@.message.from),
                forall|j: int| 0 <= j < i ==> (#[trigger] self.local_msgs@[j])@ != m@,
            decreases self.local_msgs.len() - i,
        {
            if self.local_msgs[i].same_cid_as(&m) && self.local_msgs[i].signature.sig_type == m.signature.sig_type
                && bytes_eq(&self.local_msgs[i].signature.bytes, &m.signature.bytes) {
                assert(self.local_msgs@[i as int]@ == m@);
                return;
            }
            i = i + 1;
        }
        self.local_msgs.push(m);
    }

    /// `locals` holds a message equal to `m`.
    pub open spec fn holds_local(locals: Seq<SignedMessage>, m: SignedMessageModel) -> bool {
        exists|j: int| 0 <= j < locals.len() && #[trigger] locals[j]@ == m
    }

    /// `post` tracks `msg` as local on top of what `pre` tracked.
    pub open spec fn recorded_local(pre: MessagePool, post: MessagePool, msg: SignedMessage) -> bool {
        &&& post.local_addrs@ == pre.local_addrs@.push(msg@.message.from)
        &&& Self::holds_local(pre.local_msgs@, msg@) ==> post.local_msgs == pre.local_msgs
        &&& !Self::holds_local(pre.local_msgs@, msg@) ==> {
            &&& post.local_msgs@.len() == pre.local_msgs@.len() + 1
            &&& post.local_msgs@.drop_last() == pre.local_msgs@
            &&& post.local_msgs@.last()@ == msg@
        }
    }

    /// Pushes a locally originated message: static checks, admission, then
    /// local tracking. Returns whether the message is to be published.
    pub fn push<P: Provider>(
        &mut self,
        api: &mut P,
        msg: SignedMessage,
        encoded_len: usize,
        signature_valid: bool,
        sender: SenderState,
    ) -> (r: Result<bool, Error>)
        requires
            old(self).wf(),
            msg@.message.sequence < u64::MAX,
        ensures
            final(self).wf(),
            old(self).sequences_below_next() ==> final(self).sequences_below_next(),
            match check_message_spec(msg@.message, encoded_len as int, signature_valid) {
                Some(e) => r == Err::<bool, Error>(e) && Self::untouched(*old(self), *final(self), *old(api), *final(api))
                    && final(self).local_msgs == old(self).local_msgs,
                None => exists|mid: MessagePool| {
                    &&& #[trigger] Self::tipset_outcome(*old(self), mid, *old(api), *final(api), msg, encoded_len as int, sender, true, r)
                    &&& final(self).pending@ == mid.pending@
                    &&& final(self).bls_sig_cache == mid.bls_sig_cache
                    &&& r is Ok ==> Self::recorded_local(*old(self), *final(self), msg)
                    &&& r is Err ==> final(self).local_msgs == old(self).local_msgs
                },
            },
    {
        match check_message(&msg, encoded_len, signature_valid) {
            Ok(()) => {},
            Err(e) => {
                return Err(e);
            },
        }
        let local = msg.copy();
        let ghost pre = *self;
        let ghost api_pre = *api;
        let r = self.add_tipset(api, msg, encoded_len, sender, true);
        let ghost mid = *self;
        match r {
            Ok(publish) => {
                let ghost lm = self.local_msgs@;
                self.add_local(local);
                assert(!Self::holds_local(lm, local@) ==> self.local_msgs@.drop_last() =~= pre.local_msgs@);
                assert(Self::recorded_local(pre, *self, msg));
                assert(Self::tipset_outcome(pre, mid, api_pre, *api, msg, encoded_len as int, sender, true, r));
                Ok(publish)
            },
            Err(e) => {
                assert(Self::tipset_outcome(pre, mid, api_pre, *api, msg, encoded_len as int, sender, true, r));
                Err(e)
            },
        }
    }

    /// The outcome of [`MessagePool::add`]: the first static check that
    /// fails, with nothing changed, or the outcome of admission.
    pub open spec fn add_outcome<P: Provider>(
        pre: MessagePool,
        post: MessagePool,
        api_pre: P,
        api: P,
        msg: SignedMessage,
        encoded_len: int,
        signature_valid: bool,
        sender: SenderState,
        r: Result<(), Error>,
    ) -> bool {
        match check_message_spec(msg@.message, encoded_len, signature_valid) {
            Some(e) => r == Err::<(), Error>(e) && Self::untouched(pre, post, api_pre, api),
            None => exists|rt: Result<bool, Error>| {
                &&& #[trigger] Self::tipset_outcome(pre, post, api_pre, api, msg, encoded_len, sender, false, rt)
                &&& match rt {
                    Ok(_) => r is Ok,
                    Err(e) => r == Err::<(), Error>(e),
                }
            },
        }
    }

    /// `pools`, `apis`, `msgs` and `rs` record loading the local messages
    /// `locals` with `facts` one after the other: each step is an
    /// [`MessagePool::add`] of a copy of the next local message.
    pub open spec fn load_chain<P: Provider>(
        locals: Seq<SignedMessage>,
        facts: Seq<LocalFacts>,
        pools: Seq<MessagePool>,
        apis: Seq<P>,
        msgs: Seq<SignedMessage>,
        rs: Seq<Result<(), Error>>,
    ) -> bool {
        &&& pools.len() == locals.len() + 1
        &&& apis.len() == locals.len() + 1
        &&& msgs.len() == locals.len()
        &&& rs.len() == locals.len()
        &&& facts.len() == locals.len()
        &&& forall|j: int| 0 <= j < locals.len() ==> (#[trigger] msgs[j])@ == locals[j]@ && Self::add_outcome(
            pools[j],
            pools[j + 1],
            apis[j],
            apis[j + 1],
            msgs[j],
            facts[j].encoded_len as int,
            facts[j].signature_valid,
            facts[j].sender,
            rs[j],
        )
    }

    /// Admits a message from the network: static checks and admission,
    /// without local tracking or publication.
    pub fn add<P: Provider>(
        &mut self,
        api: &mut P,
        msg: SignedMessage,
        encoded_len: usize,
        signature_valid: bool,
        sender: SenderState,
    ) -> (r: Result<(), Error>)
        requires
            old(self).wf(),
            msg@.message.sequence < u64::MAX,
        ensures
            final(self).wf(),
            old(self).sequences_below_next() ==> final(self).sequences_below_next(),
            final(self).same_config(old(self)),
            Self::add_outcome(*old(self), *final(self), *old(api), *final(api), msg, encoded_len as int, signature_valid, sender, r),
    {
        match check_message(&msg, encoded_len, signature_valid) {
            Ok(()) => {},
            Err(e) => {
                return Err(e);
            },
        }
        let rt = self.add_tipset(api, msg, encoded_len, sender, false);
        match rt {
            Ok(_) => Ok(()),
            Err(e) => Err(e),
        }
    }

    /// The next sequence to use for `addr`: the larger of the account's
    /// sequence on chain and the next sequence of its pending set.
    pub fn get_sequence(&self, addr: Address, state_sequence: u64) -> (r: u64)
        ensures
            r == if self.pending@.contains_key(addr) && self.pending@[addr].next_sequence > state_sequence {
                self.pending@[addr].next_sequence
            } else {
                state_sequence
            },
    {
        match self.pending.get(&addr) {
            Some(mset) => {
                if state_sequence > mset.next_sequence {
                    state_sequence
                } else {
                    mset.next_sequence
                }
            },
            None => state_sequence,
        }
    }

    /// The pending messages of `a` in order of sequence, or `None` when it has none.
    pub fn pending_for(&self, a: Address) -> (r: Option<Vec<SignedMessage>>)
        requires
            self.wf(),
        ensures
            r is None <==> !self.pending@.contains_key(a) || self.pending@[a].msgs@.is_empty(),
            r matches Some(v) ==> {
                let msgs = self.pending@[a].msgs@;
                &&& v@.len() == msgs.len()
                &&& forall|i: int| 0 <= i < v@.len() ==> {
                    &&& msgs.contains_key(#[trigger] v@[i]@.message.sequence)
                    &&& msgs[v@[i]@.message.sequence]@ == v@[i]@
                }
                &&& forall|k: u64| #[trigger] msgs.contains_key(k) ==> exists|i: int|
                    0 <= i < v@.len() && #[trigger] v@[i]@ == msgs[k]@
                &&& forall|i: int, j: int| 0 <= i < j < v@.len() ==> v@[i]@.message.sequence < v@[j]@.message.sequence
            },
    {
        let mset = match self.pending.get(&a) {
            Some(m) => m,
            None => {
                return None;
            },
        };
        if mset.msgs.is_empty() {
            return None;
        }
        let mut out: Vec<SignedMessage> = Vec::new();
        let ghost msgs = mset.msgs@;
        let vals = mset.msgs.values();
        let ghost rem = vals.remaining();
        proof {
            assert(rem.unref().to_set() == msgs.values());
            assert forall|i: int| 0 <= i < rem.len() implies msgs.values().contains(*#[trigger] rem[i]) by {
                assert(rem.unref()[i] == *rem[i]);
                assert(rem.unref().to_set().contains(rem.unref()[i]));
            }
            assert forall|v: SignedMessage| #[trigger] msgs.values().contains(v) implies exists|i: int|
                0 <= i < rem.len() && *rem[i] == v by {
                assert(rem.unref().to_set().contains(v));
                let i = choose|i: int| 0 <= i < rem.unref().len() && rem.unref()[i] == v;
                assert(*rem[i] == v);
            }
            assert forall|k: u64| #[trigger] msgs.contains_key(k) implies exists|i: int|
                0 <= i < rem.len() && *rem[i] == msgs[k] by {
                assert(msgs.values().contains(msgs[k]));
            }
        }
        for x in it: vals
            invariant
                it.seq() == rem,
                mset.wf(),
                msgs == mset.msgs@,
                it.seq().len() == msgs.dom().len(),
                forall|i: int| 0 <= i < it.seq().len() ==> msgs.values().contains(*#[trigger] it.seq()[i]),
                forall|v: SignedMessage| #[trigger] msgs.values().contains(v) ==> exists|i: int|
                    0 <= i < it.seq().len() && *it.seq()[i] == v,
                out@.len() == it.index(),
                forall|i: int| 0 <= i < it.index() ==> #[trigger] out@[i]@ == (*it.seq()[i])@,
                forall|i: int| 0 <= i < out@.len() ==> {
                    &&& msgs.contains_key(#[trigger] out@[i]@.message.sequence)
                    &&& msgs[out@[i]@.message.sequence]@ == out@[i]@
                },
                forall|k: u64| #[trigger] msgs.contains_key(k) ==> (exists|j: int|
                    0 <= j < out@.len() && #[trigger] out@[j]@ == msgs[k]@) || (exists|i: int|
                    out@.len() <= i < rem.len() && *rem[i] == msgs[k]),
        {
            let ghost idx = out@.len() as int;
            proof {
                assert(msgs.values().contains(*x));
                let k0 = choose|k: u64| #[trigger] msgs.contains_key(k) && msgs[k] == *x;
                assert(msgs[k0]@.message.sequence == k0);
            }
            let ghost old_out = out@;
            out.push(x.copy());
            proof {
                assert(*x == *rem[idx]);
                assert forall|k: u64| #[trigger] msgs.contains_key(k) implies (exists|j: int|
                    0 <= j < out@.len() && #[trigger] out@[j]@ == msgs[k]@) || (exists|i: int|
                    out@.len() <= i < rem.len() && *rem[i] == msgs[k]) by {
                    if exists|j: int| 0 <= j < old_out.len() && #[trigger] old_out[j]@ == msgs[k]@ {
                        let j = choose|j: int| 0 <= j < old_out.len() && #[trigger] old_out[j]@ == msgs[k]@;
                        assert(out@[j] == old_out[j]);
                        assert(out@[j]@ == msgs[k]@);
                    } else {
                        let i = choose|i: int| idx <= i < rem.len() && *rem[i] == msgs[k];
                        if i == idx {
                            assert(out@[out@.len() - 1]@ == msgs[k]@);
                        }
                    }
                }
            }
        }
        let ghost unsorted = out@;
        sort_by_sequence(&mut out);
        proof {
            broadcast use vstd::seq_lib::group_to_multiset_ensures;
            assert forall|i: int| 0 <= i < out@.len() implies {
                &&& msgs.contains_key(#[trigger] out@[i]@.message.sequence)
                &&& msgs[out@[i]@.message.sequence]@ == out@[i]@
            } by {
                assert(out@.contains(out@[i]));
                assert(unsorted.to_multiset().count(out@[i]) > 0);
                assert(unsorted.contains(out@[i]));
                let j = choose|j: int| 0 <= j < unsorted.len() && unsorted[j] == out@[i];
                assert(msgs.contains_key(unsorted[j]@.message.sequence));
            }
            assert forall|k: u64| #[trigger] msgs.contains_key(k) implies exists|i: int|
                0 <= i < out@.len() && #[trigger] out@[i]@ == msgs[k]@ by {
                let j = choose|j: int| 0 <= j < unsorted.len() && #[trigger] unsorted[j]@ == msgs[k]@;
                assert(unsorted.contains(unsorted[j]));
                assert(out@.to_multiset().count(unsorted[j]) > 0);
                assert(out@.contains(unsorted[j]));
                let i = choose|i: int| 0 <= i < out@.len() && out@[i] == unsorted[j];
                assert(out@[i]@ == msgs[k]@);
            }
            lemma_distinct_sequences(out@, msgs);
        }
        Some(out)
    }

    /// Every pending message, each sender's in order of sequence, with the
    /// current tipset. A sender whose set is empty is an error.
    pub fn pending(&self) -> (r: Result<(Vec<SignedMessage>, Tipset), Error>)
        requires
            self.wf(),
        ensures
            r is Err <==> exists|a: Address| #[trigger] self.pending@.contains_key(a) && self.pending@[a].msgs@.is_empty(),
            r matches Err(e) ==> e == Error::InvalidFromAddr,
            r matches Ok((v, ts)) ==> {
                &&& ts.epoch == self.cur_tipset.epoch
                &&& ts.blocks@ == self.cur_tipset.blocks@
                &&& forall|i: int| 0 <= i < v@.len() ==> (#[trigger] self.pending_at(v@[i]@.message.from, v@[i]@.message.sequence)) is Some && self.pending_at(v@[i]@.message.from, v@[i]@.message.sequence)->0@ == v@[i]@
                &&& forall|a: Address, k: u64| #[trigger] self.pending_at(a, k) is Some ==> exists|i: int| 0 <= i < v@.len() && #[trigger] v@[i]@ == self.pending_at(a, k)->0@
                &&& grouped(v@)
            },
    {
        let mut out: Vec<SignedMessage> = Vec::new();
        let keys = self.pending.keys();
        let ghost rem = keys.remaining();
        let ghost pm = self.pending@;
        proof {
            assert(rem.unref().to_set() == pm.dom());
            assert forall|i: int| 0 <= i < rem.len() implies pm.contains_key(*#[trigger] rem[i]) by {
                assert(rem.unref()[i] == *rem[i]);
                assert(rem.unref().to_set().contains(rem.unref()[i]));
            }
            assert forall|a: Address| #[trigger] pm.contains_key(a) implies exists|i: int| 0 <= i < rem.len() && *rem[i] == a by {
                assert(rem.unref().to_set().contains(a));
                let i = choose|i: int| 0 <= i < rem.unref().len() && rem.unref()[i] == a;
                assert(*rem[i] == a);
            }
        }
        let ghost mut done: Set<Address> = Set::empty();
        let ghost mut cnt: int = 0;
        assert(rem.no_duplicates());
        for a in it: keys
            invariant
                it.seq() == rem,
                cnt == it.index(),
                rem.no_duplicates(),
                grouped(out@),
                forall|i: int| 0 <= i < out@.len() ==> done.contains((#[trigger] out@[i])@.message.from),
                forall|a: Address| #[trigger] done.contains(a) ==> exists|t: int| 0 <= t < cnt && *rem[t] == a,
                self.wf(),
                pm == self.pending@,
                forall|i: int| 0 <= i < rem.len() ==> pm.contains_key(*#[trigger] rem[i]),
                forall|a: Address| #[trigger] pm.contains_key(a) ==> exists|i: int| 0 <= i < rem.len() && *rem[i] == a,
                forall|a: Address| #[trigger] done.contains(a) ==> pm.contains_key(a) && !pm[a].msgs@.is_empty(),
                forall|i: int| 0 <= i < cnt ==> done.contains(*#[trigger] rem[i]),
                forall|i: int| 0 <= i < out@.len() ==> (#[trigger] self.pending_at(out@[i]@.message.from, out@[i]@.message.sequence)) is Some && self.pending_at(out@[i]@.message.from, out@[i]@.message.sequence)->0@ == out@[i]@,
                forall|a: Address, k: u64| #[trigger] self.pending_at(a, k) is Some && done.contains(a) ==> exists|i: int| 0 <= i < out@.len() && #[trigger] out@[i]@ == self.pending_at(a, k)->0@,
        {
            let ghost idx = cnt;
            let addr = *a;
            proof {
                assert(addr == *rem[idx]);
            }
            let v = match self.pending_for(addr) {
                Some(v) => v,
                None => {
                    return Err(Error::InvalidFromAddr);
                },
            };
            let ghost old_out = out@;
            let ghost old_done = done;
            proof {
                if old_done.contains(addr) {
                    let t = choose|t: int| 0 <= t < cnt && *rem[t] == addr;
                    assert(rem[t] == rem[idx]);
                }
            }
            let mut i: usize = 0;
            while i < v.len()
                invariant
                    !old_done.contains(addr),
                    forall|j: int| 0 <= j < old_out.len() ==> old_done.contains((#[trigger] old_out[j])@.message.from),
                    forall|p: int, q: int| 0 <= p < q < v@.len() ==> v@[p]@.message.sequence < v@[q]@.message.sequence,
                    forall|j: int| 0 <= j < i ==> (#[trigger] out@[old_out.len() + j])@.message.from == addr,
                    grouped(out@),
                    self.wf(),
                    pm == self.pending@,
                    pm.contains_key(addr),
                    i <= v@.len(),
                    v@.len() == pm[addr].msgs@.len(),
                    forall|j: int| 0 <= j < v@.len() ==> {
                        &&& pm[addr].msgs@.contains_key(#[trigger] v@[j]@.message.sequence)
                        &&& pm[addr].msgs@[v@[j]@.message.sequence]@ == v@[j]@
                    },
                    out@.len() == old_out.len() + i,
                    forall|j: int| 0 <= j < old_out.len() ==> out@[j] == old_out[j],
                    forall|j: int| 0 <= j < i ==> out@[old_out.len() + j]@ == #[trigger] v@[j]@,
                    forall|j: int| 0 <= j < out@.len() ==> (#[trigger] self.pending_at(out@[j]@.message.from, out@[j]@.message.sequence)) is Some && self.pending_at(out@[j]@.message.from, out@[j]@.message.sequence)->0@ == out@[j]@,
                decreases v.len() - i,
            {
                let c = v[i].copy();
                proof {
                    let k = v@[i as int]@.message.sequence;
                    assert(pm[addr].msgs@[k]@.message.from == addr);
                    assert(self.pending_at(addr, k) == Some(pm[addr].msgs@[k]));
                }
                let ghost before = out@;
                out.push(c);
                proof {
                    let n = out@.len() - 1;
                    assert(out@[n]@ == v@[i as int]@);
                    assert(out@[n]@.message.from == addr) by {
                        let k = v@[i as int]@.message.sequence;
                        assert(pm[addr].msgs@[k]@.message.from == addr);
                    }
                    assert forall|x: int, y: int| 0 <= x < y < out@.len() && (#[trigger] out@[x])@.message.from == (#[trigger] out@[y])@.message.from implies
                        out@[x]@.message.sequence < out@[y]@.message.sequence
                        && forall|l: int| x <= l <= y ==> (#[trigger] out@[l])@.message.from == out@[x]@.message.from by {
                        if y < n {
                            assert(out@[x] == before[x] && out@[y] == before[y]);
                            assert forall|l: int| x <= l <= y implies (#[trigger] out@[l])@.message.from == out@[x]@.message.from by {
                                assert(out@[l] == before[l]);
                            }
                        } else if x < old_out.len() {
                            assert(out@[x] == old_out[x]);
                            assert(old_done.contains(old_out[x]@.message.from));
                        } else {
                            let p = x - old_out.len();
                            assert(out@[old_out.len() + p]@ == v@[p]@);
                            assert forall|l: int| x <= l <= y implies (#[trigger] out@[l])@.message.from == out@[x]@.message.from by {
                                if l < n {
                                    assert(out@[old_out.len() + (l - old_out.len())]@.message.from == addr);
                                }
                            }
                        }
                    }
                }
                i = i + 1;
            }
            proof {
                assert forall|i2: int| 0 <= i2 < out@.len() implies done.insert(addr).contains((#[trigger] out@[i2])@.message.from) by {
                    if i2 < old_out.len() {
                        assert(out@[i2] == old_out[i2]);
                    } else {
                        assert(out@[old_out.len() + (i2 - old_out.len())]@.message.from == addr);
                    }
                }
                done = done.insert(addr);
                cnt = cnt + 1;
                assert forall|a2: Address, k: u64| #[trigger] self.pending_at(a2, k) is Some && done.contains(a2) implies exists|j: int| 0 <= j < out@.len() && #[trigger] out@[j]@ == self.pending_at(a2, k)->0@ by {
                    let m = self.pending_at(a2, k)->0;
                    if old_done.contains(a2) {
                        let j = choose|j: int| 0 <= j < old_out.len() && #[trigger] old_out[j]@ == m@;
                        assert(out@[j] == old_out[j]);
                    } else {
                        assert(a2 == addr);
                        assert(pm[addr].msgs@.contains_key(k));
                        let j = choose|j: int| 0 <= j < v@.len() && #[trigger] v@[j]@ == pm[addr].msgs@[k]@;
                        assert(out@[old_out.len() + j]@ == v@[j]@);
                    }
                }
            }
        }
        proof {
            assert forall|a: Address| #[trigger] self.pending@.contains_key(a) implies done.contains(a) by {
                let i = choose|i: int| 0 <= i < rem.len() && *rem[i] == a;
            }
        }
        let ts = Tipset { epoch: self.cur_tipset.epoch, blocks: copy_headers(&self.cur_tipset.blocks) };
        Ok((out, ts))
    }

    /// The messages of blocks given as their unsigned and signed lists: per
    /// block, the signed messages, then each unsigned one with its BLS
    /// signature recovered from the cache. A signature missing from the
    /// cache is an error.
    pub fn messages_for_blocks(&self, blocks: &Vec<(Vec<Message>, Vec<SignedMessage>)>) -> (r: Result<Vec<SignedMessage>, Error>)
        ensures
            r is Err <==> exists|b: int, j: int| 0 <= b < blocks@.len() && 0 <= j < blocks@[b].0@.len() && !#[trigger] self.bls_cached(blocks@[b].0@[j]@),
            r matches Err(e) ==> e is Other,
            r matches Ok(v) ==> models(v@) == expected_blocks(blocks@, self.bls_sig_cache@),
            r matches Ok(v) ==> v@.len() == block_messages_len(blocks@) && forall|i: int| 0 <= i < v@.len() ==> Self::from_blocks(blocks@, #[trigger] v@[i]@, self.bls_sig_cache@),
    {
        let mut out: Vec<SignedMessage> = Vec::new();
        let mut b: usize = 0;
        while b < blocks.len()
            invariant
                b <= blocks@.len(),
                forall|bb: int, j: int| 0 <= bb < b && 0 <= j < blocks@[bb].0@.len() ==> #[trigger] self.bls_cached(blocks@[bb].0@[j]@),
                out@.len() == block_messages_len(blocks@.take(b as int)),
                models(out@) == expected_blocks(blocks@.take(b as int), self.bls_sig_cache@),
                forall|i: int| 0 <= i < out@.len() ==> Self::from_blocks(blocks@, #[trigger] out@[i]@, self.bls_sig_cache@),
            decreases blocks@.len() - b,
        {
            let (unsigned, signed) = (&blocks[b].0, &blocks[b].1);
            let ghost start = out@.len();
            let ghost before = models(out@);
            let mut j: usize = 0;
            while j < signed.len()
                invariant
                    j <= signed@.len(),
                    signed@ == blocks@[b as int].1@,
                    b < blocks@.len(),
                    out@.len() == start + j,
                    models(out@) == before + models(signed@.take(j as int)),
                    forall|i: int| 0 <= i < out@.len() ==> Self::from_blocks(blocks@, #[trigger] out@[i]@, self.bls_sig_cache@),
                decreases signed.len() - j,
            {
                let c = signed[j].copy();
                proof {
                    assert(blocks@[b as int].1@[j as int]@ == c@);
                    assert(models(out@.push(c)) =~= models(out@).push(c@));
                    assert(models(signed@.take(j + 1)) =~= models(signed@.take(j as int)).push(signed@[j as int]@));
                }
                out.push(c);
                j = j + 1;
            }
            let mut k: usize = 0;
            while k < unsigned.len()
                invariant
                    k <= unsigned@.len(),
                    unsigned@ == blocks@[b as int].0@,
                    signed@ == blocks@[b as int].1@,
                    b < blocks@.len(),
                    out@.len() == start + signed@.len() + k,
                    models(out@) == before + models(signed@) + unsigned@.take(k as int).map_values(|u: Message| latest_cached(self.bls_sig_cache@, u@)),
                    forall|jj: int| 0 <= jj < k ==> #[trigger] self.bls_cached(unsigned@[jj]@),
                    forall|i: int| 0 <= i < out@.len() ==> Self::from_blocks(blocks@, #[trigger] out@[i]@, self.bls_sig_cache@),
                decreases unsigned.len() - k,
            {
                match self.recover_sig(&unsigned[k]) {
                    Some(s) => {
                        proof {
                            assert(models(out@.push(s)) =~= models(out@).push(s@));
                            assert(unsigned@.take(k + 1).map_values(|u: Message| latest_cached(self.bls_sig_cache@, u@)) =~= unsigned@.take(k as int).map_values(|u: Message| latest_cached(self.bls_sig_cache@, u@)).push(latest_cached(self.bls_sig_cache@, unsigned@[k as int]@)));
                            assert(blocks@[b as int].0@[k as int]@ == s@.message);
                            assert(self.bls_sig_cache@.len() > 0);
                            let ci = choose|ci: int| 0 <= ci < self.bls_sig_cache@.len() && #[trigger] self.bls_sig_cache@[ci]@ == s@;
                            assert(self.bls_sig_cache@[ci]@.message == unsigned@[k as int]@);
                        }
                        out.push(s);
                    },
                    None => {
                        proof {
                            assert(!self.bls_cached(blocks@[b as int].0@[k as int]@));
                        }
                        return Err(Error::Other("BLS signature not found in cache".to_string()));
                    },
                }
                k = k + 1;
            }
            proof {
                assert(blocks@.take(b + 1).drop_last() =~= blocks@.take(b as int));
                assert(signed@.take(signed@.len() as int) =~= signed@);
                assert(unsigned@.take(unsigned@.len() as int) =~= unsigned@);
                assert(blocks@.take(b + 1).last() == blocks@[b as int]);
            }
            b = b + 1;
        }
        assert(blocks@.take(blocks@.len() as int) =~= blocks@);
        Ok(out)
    }

    /// `m` is a signed message of one of the blocks, or an unsigned one
    /// signed as in an entry of `cache`.
    pub open spec fn from_blocks(blocks: Seq<(Vec<Message>, Vec<SignedMessage>)>, m: SignedMessageModel, cache: Seq<SignedMessage>) -> bool {
        ||| exists|b: int, j: int| 0 <= b < blocks.len() && 0 <= j < blocks[b].1@.len() && #[trigger] blocks[b].1@[j]@ == m
        ||| (exists|b: int, j: int| 0 <= b < blocks.len() && 0 <= j < blocks[b].0@.len() && #[trigger] blocks[b].0@[j]@ == m.message)
            && exists|i: int| 0 <= i < cache.len() && #[trigger] cache[i]@ == m
    }

    /// The cache holds a signature for the unsigned message `m`.
    pub open spec fn bls_cached(&self, m: MessageModel) -> bool {
        exists|i: int| 0 <= i < self.bls_sig_cache@.len() && #[trigger] self.bls_sig_cache@[i]@.message == m
    }

    /// Re-admits the locally originated messages, each with what is known
    /// of it now (`facts`, in the same order); a message whose sequence the
    /// chain has passed stops being tracked as local.
    pub fn load_local<P: Provider>(&mut self, api: &mut P, facts: &Vec<LocalFacts>)
        requires
            old(self).wf(),
            facts@.len() == old(self).local_msgs@.len(),
            forall|i: int| 0 <= i < old(self).local_msgs@.len() ==> (#[trigger] old(self).local_msgs@[i])@.message.sequence < u64::MAX,
        ensures
            final(self).wf(),
            old(self).sequences_below_next() ==> final(self).sequences_below_next(),
            final(self).limits == old(self).limits,
            final(self).local_addrs == old(self).local_addrs,
            models(final(self).local_msgs@) == kept_locals(old(self).local_msgs@, facts@),
            exists|pools: Seq<MessagePool>, apis: Seq<P>, msgs: Seq<SignedMessage>, rs: Seq<Result<(), Error>>|
                #[trigger] Self::load_chain(old(self).local_msgs@, facts@, pools, apis, msgs, rs)
                && pools[0].pending@ == old(self).pending@ && apis[0] == *old(api)
                && pools.last().pending@ == final(self).pending@ && apis.last() == *final(api),
    {
        let mut locals: Vec<SignedMessage> = Vec::new();
        std::mem::swap(&mut locals, &mut self.local_msgs);
        let ghost pre = *self;
        let ghost all = locals@;
        let mut kept: Vec<SignedMessage> = Vec::new();
        let ghost mut pools: Seq<MessagePool> = seq![*self];
        let ghost mut apis: Seq<P> = seq![*api];
        let ghost mut msgs: Seq<SignedMessage> = Seq::empty();
        let ghost mut rs: Seq<Result<(), Error>> = Seq::empty();
        let mut i: usize = 0;
        while i < locals.len()
            invariant
                pools.len() == i + 1,
                apis.len() == i + 1,
                msgs.len() == i,
                rs.len() == i,
                pools.last() == *self,
                apis.last() == *api,
                pools[0].pending@ == old(self).pending@,
                apis[0] == *old(api),
                forall|j: int| 0 <= j < i ==> (#[trigger] msgs[j])@ == all[j]@ && Self::add_outcome(
                    pools[j],
                    pools[j + 1],
                    apis[j],
                    apis[j + 1],
                    msgs[j],
                    facts@[j].encoded_len as int,
                    facts@[j].signature_valid,
                    facts@[j].sender,
                    rs[j],
                ),
                all == locals@,
                all.len() == facts@.len(),
                i <= all.len(),
                self.wf(),
                pre.sequences_below_next() ==> self.sequences_below_next(),
                self.limits == pre.limits,
                self.local_addrs == pre.local_addrs,
                forall|j: int| 0 <= j < all.len() ==> (#[trigger] all[j])@.message.sequence < u64::MAX,
                models(kept@) == kept_locals(all.take(i as int), facts@.take(i as int)),
            decreases all.len() - i,
        {
            let m = locals[i].copy();
            let f = facts[i];
            // Admission refuses exactly these with `SequenceTooLow`.
            let drop = check_message(&m, f.encoded_len, f.signature_valid).is_ok()
                && f.sender.sequence > m.message.sequence;
            let ghost mg = m;
            let r = self.add(api, m, f.encoded_len, f.signature_valid, f.sender);
            proof {
                let pools_before = pools;
                let apis_before = apis;
                pools = pools.push(*self);
                apis = apis.push(*api);
                msgs = msgs.push(mg);
                rs = rs.push(r);
                assert forall|j: int| 0 <= j < i + 1 implies (#[trigger] msgs[j])@ == all[j]@ && Self::add_outcome(
                    pools[j],
                    pools[j + 1],
                    apis[j],
                    apis[j + 1],
                    msgs[j],
                    facts@[j].encoded_len as int,
                    facts@[j].signature_valid,
                    facts@[j].sender,
                    rs[j],
                ) by {
                    assert(pools[j] == pools_before[j]);
                    assert(apis[j] == apis_before[j]);
                    if j < i {
                        assert(pools[j + 1] == pools_before[j + 1]);
                        assert(apis[j + 1] == apis_before[j + 1]);
                    }
                }
                assert(all.take(i + 1).drop_last() =~= all.take(i as int));
                assert(facts@.take(i + 1).take(i as int) =~= facts@.take(i as int));
                assert(all.take(i + 1).last() == all[i as int]);
                assert(facts@.take(i + 1)[i as int] == f);
            }
            if !drop {
                let c = locals[i].copy();
                kept.push(c);
                proof {
                    assert(models(kept@) =~= models(kept@.drop_last()).push(all[i as int]@));
                }
            }
            i = i + 1;
        }
        assert(all.take(all.len() as int) =~= all);
        assert(facts@.take(all.len() as int) =~= facts@);
        self.local_msgs = kept;
        assert(Self::load_chain(all, facts@, pools, apis, msgs, rs));
    }

    /// A message is worth republishing when its fee cap meets the base-fee
    /// lower bound of the current tipset (any fee cap, without blocks).
    pub open spec fn viable(&self, m: SignedMessageModel) -> bool {
        self.cur_tipset.blocks@.len() > 0 ==> m.message.gas_fee_cap >= base_fee_lower_bound_spec(
            self.cur_tipset.blocks@[0].parent_base_fee as int,
        )
    }

    /// The pending messages of local senders that are viable under the
    /// current tipset, each sender's in order of sequence.
    pub fn messages_to_republish(&self) -> (r: Vec<SignedMessage>)
        requires
            self.wf(),
        ensures
            forall|i: int| 0 <= i < r@.len() ==> {
                &&& self.local_addrs@.contains((#[trigger] r@[i])@.message.from)
                &&& self.pending_at(r@[i]@.message.from, r@[i]@.message.sequence) is Some
                &&& self.pending_at(r@[i]@.message.from, r@[i]@.message.sequence)->0@ == r@[i]@
                &&& self.viable(r@[i]@)
            },
            forall|a: Address, k: u64| #[trigger] self.pending_at(a, k) is Some && self.local_addrs@.contains(a)
                && self.viable(self.pending_at(a, k)->0@) ==> exists|i: int| 0 <= i < r@.len() && #[trigger] r@[i]@ == self.pending_at(a, k)->0@,
    {
        let has_bound = self.cur_tipset.blocks.len() > 0;
        let bound: u128 = if has_bound {
            base_fee_lower_bound(self.cur_tipset.blocks[0].parent_base_fee)
        } else {
            0
        };
        let mut out: Vec<SignedMessage> = Vec::new();
        let mut i: usize = 0;
        while i < self.local_addrs.len()
            invariant
                self.wf(),
                i <= self.local_addrs@.len(),
                has_bound == (self.cur_tipset.blocks@.len() > 0),
                has_bound ==> bound == base_fee_lower_bound_spec(self.cur_tipset.blocks@[0].parent_base_fee as int),
                forall|j: int| 0 <= j < out@.len() ==> {
                    &&& self.local_addrs@.contains((#[trigger] out@[j])@.message.from)
                    &&& self.pending_at(out@[j]@.message.from, out@[j]@.message.sequence) is Some
                    &&& self.pending_at(out@[j]@.message.from, out@[j]@.message.sequence)->0@ == out@[j]@
                    &&& self.viable(out@[j]@)
                },
                forall|a: Address, k: u64| #[trigger] self.pending_at(a, k) is Some && self.local_addrs@.take(i as int).contains(a)
                    && self.viable(self.pending_at(a, k)->0@) ==> exists|j: int| 0 <= j < out@.len() && #[trigger] out@[j]@ == self.pending_at(a, k)->0@,
            decreases self.local_addrs@.len() - i,
        {
            let addr = self.local_addrs[i];
            let ghost old_out = out@;
            proof {
                assert(self.local_addrs@.contains(addr));
            }
            let mut seen = false;
            let mut t: usize = 0;
            while t < i
                invariant
                    t <= i < self.local_addrs@.len(),
                    addr == self.local_addrs@[i as int],
                    seen ==> self.local_addrs@.take(i as int).contains(addr),
                decreases i - t,
            {
                if self.local_addrs[t] == addr {
                    seen = true;
                    assert(self.local_addrs@.take(i as int)[t as int] == addr);
                }
                t = t + 1;
            }
            let found = if seen {
                None
            } else {
                self.pending_for(addr)
            };
            match found {
                None => {
                    proof {
                        if !seen {
                            assert forall|k: u64| !(#[trigger] self.pending_at(addr, k) is Some) by {}
                        }
                    }
                },
                Some(v) => {
                    let mut j: usize = 0;
                    while j < v.len()
                        invariant
                            self.wf(),
                            j <= v@.len(),
                            self.local_addrs@.contains(addr),
                            self.pending@.contains_key(addr),
                            v@.len() == self.pending@[addr].msgs@.len(),
                            forall|t: int| 0 <= t < v@.len() ==> {
                                &&& self.pending@[addr].msgs@.contains_key(#[trigger] v@[t]@.message.sequence)
                                &&& self.pending@[addr].msgs@[v@[t]@.message.sequence]@ == v@[t]@
                            },
                            has_bound == (self.cur_tipset.blocks@.len() > 0),
                            has_bound ==> bound == base_fee_lower_bound_spec(self.cur_tipset.blocks@[0].parent_base_fee as int),
                            forall|t: int| 0 <= t < old_out.len() ==> out@[t] == old_out[t],
                            old_out.len() <= out@.len(),
                            forall|t: int| 0 <= t < out@.len() ==> {
                                &&& self.local_addrs@.contains((#[trigger] out@[t])@.message.from)
                                &&& self.pending_at(out@[t]@.message.from, out@[t]@.message.sequence) is Some
                                &&& self.pending_at(out@[t]@.message.from, out@[t]@.message.sequence)->0@ == out@[t]@
                                &&& self.viable(out@[t]@)
                            },
                            forall|t: int| 0 <= t < j && self.viable(#[trigger] v@[t]@) ==> exists|u: int| 0 <= u < out@.len() && out@[u]@ == v@[t]@,
                        decreases v.len() - j,
                    {
                        let ghost out_before = out@;
                        let take = !has_bound || v[j].message.gas_fee_cap >= bound;
                        assert(take == self.viable(v@[j as int]@));
                        if take {
                            let c = v[j].copy();
                            proof {
                                let k = v@[j as int]@.message.sequence;
                                assert(self.pending@[addr].msgs@[k]@.message.from == addr);
                                assert(self.pending_at(addr, k) == Some(self.pending@[addr].msgs@[k]));
                            }
                            out.push(c);
                            proof {
                                assert(out@[out@.len() - 1]@ == v@[j as int]@);
                            }
                        }
                        proof {
                            assert forall|t: int| 0 <= t < j + 1 && self.viable(#[trigger] v@[t]@) implies exists|u: int| 0 <= u < out@.len() && out@[u]@ == v@[t]@ by {
                                if t < j {
                                    let u = choose|u: int| 0 <= u < out_before.len() && out_before[u]@ == v@[t]@;
                                    assert(out@[u] == out_before[u]);
                                } else {
                                    assert(out@[out@.len() - 1]@ == v@[j as int]@);
                                }
                            }
                        }
                        j = j + 1;
                    }
                    proof {
                        assert forall|k: u64| #[trigger] self.pending_at(addr, k) is Some && self.viable(self.pending_at(addr, k)->0@)
                            implies exists|u: int| 0 <= u < out@.len() && #[trigger] out@[u]@ == self.pending_at(addr, k)->0@ by {
                            assert(self.pending@[addr].msgs@.contains_key(k));
                            let t = choose|t: int| 0 <= t < v@.len() && #[trigger] v@[t]@ == self.pending@[addr].msgs@[k]@;
                            assert(self.viable(v@[t]@));
                        }
                    }
                },
            }
            proof {
                assert(self.local_addrs@.take(i + 1) =~= self.local_addrs@.take(i as int).push(addr));
                assert forall|a: Address, k: u64| #[trigger] self.pending_at(a, k) is Some && self.local_addrs@.take(i + 1).contains(a)
                    && self.viable(self.pending_at(a, k)->0@) implies exists|j: int| 0 <= j < out@.len() && #[trigger] out@[j]@ == self.pending_at(a, k)->0@ by {
                    if self.local_addrs@.take(i as int).contains(a) {
                        let j = choose|j: int| 0 <= j < old_out.len() && #[trigger] old_out[j]@ == self.pending_at(a, k)->0@;
                        assert(out@[j] == old_out[j]);
                    } else {
                        assert(a == addr);
                    }
                }
            }
            i = i + 1;
        }
        assert(self.local_addrs@.take(self.local_addrs@.len() as int) =~= self.local_addrs@);
        out
    }

    /// Reconciles the pool with a change of head: messages of reverted
    /// tipsets, each with its sender's sequence on chain, return to pending;
    /// messages of applied tipsets leave it; `new_tipset` becomes current.
    /// Returns whether a republication should be triggered: some applied
    /// message's sender still has pending messages.
    pub fn head_change<P: Provider>(
        &mut self,
        api: &mut P,
        reverted: Vec<(SignedMessage, u64)>,
        applied: &Vec<SignedMessage>,
        new_tipset: Tipset,
    ) -> (repub: bool)
        requires
            old(self).wf(),
            forall|i: int| 0 <= i < reverted@.len() ==> (#[trigger] reverted@[i]).0@.message.sequence < u64::MAX,
            forall|i: int| 0 <= i < applied@.len() ==> (#[trigger] applied@[i])@.message.sequence < u64::MAX,
        ensures
            final(self).wf(),
            old(self).sequences_below_next() ==> final(self).sequences_below_next(),
            final(self).cur_tipset == new_tipset,
            final(self).limits == old(self).limits,
            final(self).prices == old(self).prices,
            final(self).local_msgs == old(self).local_msgs,
            forall|i: int| 0 <= i < applied@.len() ==> #[trigger] final(self).pending_at(
                applied@[i]@.message.from,
                applied@[i]@.message.sequence,
            ) is None,
            repub == exists|i: int| 0 <= i < applied@.len() && final(self).pending@.contains_key(#[trigger] applied@[i]@.message.from),
            forall|a: Address, k: u64| #[trigger] final(self).pending_at(a, k) is Some ==> final(self).pending_at(a, k) == old(self).pending_at(a, k)
                || exists|j: int| 0 <= j < reverted@.len() && (#[trigger] reverted@[j]).0 == final(self).pending_at(a, k)->0,
            reverted@.len() == 0 ==> forall|a: Address, k: u64| #[trigger] final(self).pending_at(a, k) == if exists|i: int|
                0 <= i < applied@.len() && (#[trigger] applied@[i])@.message.from == a
                    && applied@[i]@.message.sequence == k {
                None
            } else {
                old(self).pending_at(a, k)
            },
    {
        let ghost pre = *self;
        let ghost orig = reverted@;
        let mut reverted = reverted;
        let ghost n0 = reverted@.len();
        while reverted.len() > 0
            invariant
                reverted@.len() <= n0,
                n0 == orig.len(),
                reverted@ == orig.subrange(n0 - reverted@.len(), n0 as int),
                forall|a: Address, k: u64| #[trigger] self.pending_at(a, k) is Some ==> self.pending_at(a, k) == pre.pending_at(a, k)
                    || exists|j: int| 0 <= j < n0 && (#[trigger] orig[j]).0 == self.pending_at(a, k)->0,
                n0 == 0 ==> self.pending == pre.pending,
                self.wf(),
                pre.sequences_below_next() ==> self.sequences_below_next(),
                self.same_config(&pre),
                forall|j: int| 0 <= j < reverted@.len() ==> (#[trigger] reverted@[j]).0@.message.sequence < u64::MAX,
                true,
            decreases reverted@.len(),
        {
            let ghost prev = reverted@;
            let ghost before = *self;
            let ghost api_before = *api;
            let (m, seq) = reverted.remove(0);
            assert(forall|j: int| 0 <= j < reverted@.len() ==> reverted@[j] == prev[j + 1]);
            assert(reverted@ =~= orig.subrange(n0 - reverted@.len(), n0 as int));
            assert(m == orig[n0 - prev.len()].0);
            let rh = self.add_helper(api, m, seq);
            proof {
                lemma_helper_sources(before, *self, api_before, *api, m, seq, rh);
                assert forall|a: Address, k: u64| #[trigger] self.pending_at(a, k) is Some implies self.pending_at(a, k) == pre.pending_at(a, k)
                    || exists|j: int| 0 <= j < n0 && (#[trigger] orig[j]).0 == self.pending_at(a, k)->0 by {
                    if self.pending_at(a, k) != before.pending_at(a, k) {
                        assert(orig[n0 - prev.len()].0 == self.pending_at(a, k)->0);
                    }
                }
            }
        }
        let ghost mid = *self;
        let ghost api_mid = *api;
        let mut repub = false;
        let mut j: usize = 0;
        while j < applied.len()
            invariant
                j <= applied@.len(),
                self.wf(),
                mid.wf(),
                pre.sequences_below_next() ==> self.sequences_below_next(),
                self.same_config(&mid),
                forall|i: int| 0 <= i < applied@.len() ==> (#[trigger] applied@[i])@.message.sequence < u64::MAX,
                forall|a: Address, k: u64| #[trigger] self.pending_at(a, k) == if exists|i: int|
                    0 <= i < j && (#[trigger] applied@[i])@.message.from == a
                        && applied@[i]@.message.sequence == k {
                    None::<SignedMessage>
                } else {
                    mid.pending_at(a, k)
                },
            decreases applied@.len() - j,
        {
            let from = applied[j].message.from;
            let seq = applied[j].message.sequence;
            let ghost before = *self;
            remove(from, &mut self.pending, seq, true);
            proof {
                assert forall|a: Address| #[trigger] self.pending@.contains_key(a) implies {
                    &&& self.pending@[a].wf()
                    &&& self.pending@[a].len() <= self.limits.trusted
                    &&& forall|k: u64| #[trigger] self.pending@[a].msgs@.contains_key(k)
                        ==> self.pending@[a].msgs@[k]@.message.from == a
                } by {
                    if a == from {
                        let b = before.pending@[from].msgs@;
                        if b.contains_key(seq) {
                            b.lemma_remove_key_len(seq);
                        } else {
                            assert(b.remove(seq) =~= b);
                        }
                    }
                }
                assert forall|a: Address, k: u64| #[trigger] self.pending_at(a, k) == if exists|i: int|
                    0 <= i < j + 1 && (#[trigger] applied@[i])@.message.from == a
                        && applied@[i]@.message.sequence == k {
                    None::<SignedMessage>
                } else {
                    mid.pending_at(a, k)
                } by {
                    assert(before.pending_at(a, k) == if exists|i: int|
                        0 <= i < j && (#[trigger] applied@[i])@.message.from == a
                            && applied@[i]@.message.sequence == k {
                        None::<SignedMessage>
                    } else {
                        mid.pending_at(a, k)
                    });
                    if a == from && k == seq {
                        assert(applied@[j as int]@.message.from == a);
                    }
                }
            }
            j = j + 1;
        }
        let mut k: usize = 0;
        while k < applied.len()
            invariant
                k <= applied@.len(),
                repub == exists|i: int| 0 <= i < k && self.pending@.contains_key(#[trigger] applied@[i]@.message.from),
            decreases applied@.len() - k,
        {
            let found = self.pending.contains_key(&applied[k].message.from);
            proof {
                assert(found == self.pending@.contains_key(applied@[k as int]@.message.from));
            }
            if found {
                repub = true;
            }
            proof {
                assert(repub == exists|i: int| 0 <= i < k + 1 && self.pending@.contains_key(#[trigger] applied@[i]@.message.from)) by {
                    if found {
                        assert(self.pending@.contains_key(applied@[k as int]@.message.from));
                    }
                }
            }
            k = k + 1;
        }
        let ghost fin = *self;
        self.cur_tipset = new_tipset;
        proof {
            assert forall|i: int| 0 <= i < applied@.len() implies #[trigger] self.pending_at(
                applied@[i]@.message.from,
                applied@[i]@.message.sequence,
            ) is None by {
                let a = applied@[i]@.message.from;
                let k = applied@[i]@.message.sequence;
                assert(fin.pending_at(a, k) is None);
            }
            assert forall|a: Address, k: u64| #[trigger] self.pending_at(a, k) == fin.pending_at(a, k) by {}
        }
        repub
    }
}

/// What is known of a local message when it is loaded again: its
/// serialized size, whether its signature verifies, and its sender's state.
#[derive(Clone, Copy, Debug, PartialEq, Eq, Structural)]
pub struct LocalFacts {
    pub encoded_len: usize,
    pub signature_valid: bool,
    pub sender: SenderState,
}

/// Loading drops a local message that passes the static checks but whose
/// sequence lies below its sender's sequence on chain.
pub open spec fn dropped_on_load(m: SignedMessage, f: LocalFacts) -> bool {
    &&& check_message_spec(m@.message, f.encoded_len as int, f.signature_valid) is None
    &&& f.sender.sequence > m@.message.sequence
}

/// The models of the messages of `ms` that loading keeps, in order.
pub open spec fn kept_locals(ms: Seq<SignedMessage>, fs: Seq<LocalFacts>) -> Seq<SignedMessageModel>
    decreases ms.len(),
{
    if ms.len() == 0 {
        Seq::empty()
    } else {
        let rest = kept_locals(ms.drop_last(), fs.take(ms.len() - 1));
        if dropped_on_load(ms.last(), fs[ms.len() - 1]) {
            rest
        } else {
            rest.push(ms.last()@)
        }
    }
}

/// The models of a list of messages.
pub open spec fn models(ms: Seq<SignedMessage>) -> Seq<SignedMessageModel> {
    ms.map_values(|m: SignedMessage| m@)
}

/// Messages that cover a map keyed by their own sequence, as many as its
/// keys, have pairwise distinct sequences.
proof fn lemma_distinct_sequences(v: Seq<SignedMessage>, msgs: Map<u64, SignedMessage>)
    requires
        msgs.dom().finite(),
        v.len() == msgs.len(),
        forall|k: u64| #[trigger] msgs.contains_key(k) ==> msgs[k]@.message.sequence == k,
        forall|i: int| 0 <= i < v.len() ==> msgs.contains_key(#[trigger] v[i]@.message.sequence),
        forall|k: u64| #[trigger] msgs.contains_key(k) ==> exists|i: int| 0 <= i < v.len() && #[trigger] v[i]@ == msgs[k]@,
    ensures
        forall|i: int, j: int| 0 <= i < j < v.len() ==> v[i]@.message.sequence != v[j]@.message.sequence,
{
    let seqs = v.map_values(|m: SignedMessage| m@.message.sequence);
    assert(seqs.to_set() =~= msgs.dom()) by {
        assert forall|k: u64| msgs.dom().contains(k) implies seqs.to_set().contains(k) by {
            let i = choose|i: int| 0 <= i < v.len() && #[trigger] v[i]@ == msgs[k]@;
            assert(seqs[i] == k);
        }
    }
    assert forall|i: int, j: int| 0 <= i < j < v.len() implies v[i]@.message.sequence != v[j]@.message.sequence by {
        if v[i]@.message.sequence == v[j]@.message.sequence {
            let rest = seqs.remove(j);
            assert(rest.to_set() =~= seqs.to_set()) by {
                assert forall|k: u64| seqs.to_set().contains(k) implies rest.to_set().contains(k) by {
                    let t = choose|t: int| 0 <= t < seqs.len() && seqs[t] == k;
                    if t == j {
                        assert(rest[i] == k);
                    } else if t < j {
                        assert(rest[t] == k);
                    } else {
                        assert(rest[t - 1] == k);
                    }
                }
            }
            rest.lemma_cardinality_of_set();
        }
    }
}

/// Each sender's messages stand together, in strictly increasing order of sequence.
pub open spec fn grouped(v: Seq<SignedMessage>) -> bool {
    forall|x: int, y: int| 0 <= x < y < v.len() && (#[trigger] v[x])@.message.from == (#[trigger] v[y])@.message.from ==> {
        &&& v[x]@.message.sequence < v[y]@.message.sequence
        &&& forall|l: int| x <= l <= y ==> (#[trigger] v[l])@.message.from == v[x]@.message.from
    }
}

/// The newest entry of `cache` whose message is `m`.
pub open spec fn latest_cached(cache: Seq<SignedMessage>, m: MessageModel) -> SignedMessageModel
    decreases cache.len(),
{
    if cache.len() == 0 {
        arbitrary()
    } else if cache.last()@.message == m {
        cache.last()@
    } else {
        latest_cached(cache.drop_last(), m)
    }
}

/// The messages of `blocks` in order: per block its signed messages, then
/// each unsigned one with the signature of its newest cache entry.
pub open spec fn expected_blocks(blocks: Seq<(Vec<Message>, Vec<SignedMessage>)>, cache: Seq<SignedMessage>) -> Seq<SignedMessageModel>
    decreases blocks.len(),
{
    if blocks.len() == 0 {
        Seq::empty()
    } else {
        expected_blocks(blocks.drop_last(), cache) + models(blocks.last().1@) + blocks.last().0@.map_values(
            |u: Message| latest_cached(cache, u@),
        )
    }
}

/// How many messages the blocks hold, signed and unsigned.
pub open spec fn block_messages_len(blocks: Seq<(Vec<Message>, Vec<SignedMessage>)>) -> int
    decreases blocks.len(),
{
    if blocks.len() == 0 {
        0
    } else {
        block_messages_len(blocks.drop_last()) + blocks.last().0@.len() + blocks.last().1@.len()
    }
}

fn copy_headers(v: &Vec<BlockHeader>) -> (r: Vec<BlockHeader>)
    ensures
        r@ == v@,
{
    let mut r: Vec<BlockHeader> = Vec::new();
    let mut i: usize = 0;
    while i < v.len()
        invariant
            i <= v@.len(),
            r@ == v@.subrange(0, i as int),
        decreases v.len() - i,
    {
        r.push(v[i]);
        i = i + 1;
        assert(r@ =~= v@.subrange(0, i as int));
    }
    assert(r@ =~= v@);
    r
}

/// After [`MessagePool::add_helper`], every pending message was pending
/// before or is the message admitted.
proof fn lemma_helper_sources<P: Provider>(
    pre: MessagePool,
    post: MessagePool,
    api_pre: P,
    api: P,
    msg: SignedMessage,
    sequence: u64,
    r: Result<(), Error>,
)
    requires
        MessagePool::helper_outcome(pre, post, api_pre, api, msg, sequence, r),
    ensures
        forall|a: Address, k: u64| #[trigger] post.pending_at(a, k) is Some ==> post.pending_at(a, k) == pre.pending_at(a, k)
            || post.pending_at(a, k) == Some(msg),
{
    assert forall|a: Address, k: u64| #[trigger] post.pending_at(a, k) is Some implies post.pending_at(a, k) == pre.pending_at(a, k)
        || post.pending_at(a, k) == Some(msg) by {
        if post.pending@ != pre.pending@ {
            let from = msg@.message.from;
            let seq = msg@.message.sequence;
            if a == from {
                if pre.pending@.contains_key(from) {
                    if k != seq {
                        assert(post.pending@[from].msgs@.contains_key(k) ==> pre.pending@[from].msgs@.contains_key(k)
                            && post.pending@[from].msgs@[k] == pre.pending@[from].msgs@[k]);
                    }
                } else {
                    assert(post.pending@[from].msgs@.contains_key(k) ==> k == seq);
                }
            }
        }
    }
}

/// Removes the message of `from` at `sequence` from the pending map; a set
/// left empty leaves the map.
pub fn remove(from: Address, pending: &mut HashMap<Address, MsgSet>, sequence: u64, applied: bool) -> (r: Result<(), Error>)
    requires
        old(pending)@.contains_key(from) ==> old(pending)@[from].wf(),
        applied ==> sequence < u64::MAX,
    ensures
        r is Ok,
        !old(pending)@.contains_key(from) ==> final(pending)@ == old(pending)@,
        old(pending)@.contains_key(from) ==> exists|post: MsgSet| {
            &&& #[trigger] MsgSet::rm_outcome(old(pending)@[from], post, sequence, applied)
            &&& final(pending)@ == if post.msgs@.is_empty() {
                old(pending)@.remove(from)
            } else {
                old(pending)@.insert(from, post)
            }
        },
{
    match pending.remove(&from) {
        None => {
            assert(old(pending)@.remove(from) =~= old(pending)@);
            Ok(())
        },
        Some(mut mset) => {
            mset.rm(sequence, applied);
            if !mset.msgs.is_empty() {
                pending.insert(from, mset);
                assert(pending@ =~= old(pending)@.insert(from, mset));
            }
            Ok(())
        },
    }
}

} // verus!
