//! The per-sender set of pending messages, indexed by sequence number.
use crate::message::{Error, SignedMessage, SignedMessageModel, same_cid};
use std::collections::HashMap;
use vstd::prelude::*;

verus! {

broadcast use vstd::std_specs::hash::group_hash_axioms;

/// Numerator of the replace-by-fee ratio.
pub const RBF_NUM: u128 = 25;

/// Denominator of the replace-by-fee ratio.
pub const RBF_DENOM: u128 = 100;

/// Default ceiling of pending messages per sender admitted from trusted sources.
pub const MAX_ACTOR_PENDING_MESSAGES: u64 = 1000;

/// Default ceiling of pending messages per sender admitted from untrusted sources.
pub const MAX_UNTRUSTED_ACTOR_PENDING_MESSAGES: u64 = 10;

/// The per-sender ceilings on pending messages.
#[derive(Clone, Copy, Debug, PartialEq, Eq, Structural)]
pub struct PendingLimits {
    pub trusted: u64,
    pub untrusted: u64,
}

impl PendingLimits {
    /// The default ceilings.
    pub fn default_limits() -> (r: PendingLimits)
        ensures
            r.trusted == MAX_ACTOR_PENDING_MESSAGES,
            r.untrusted == MAX_UNTRUSTED_ACTOR_PENDING_MESSAGES,
    {
        PendingLimits {
            trusted: MAX_ACTOR_PENDING_MESSAGES,
            untrusted: MAX_UNTRUSTED_ACTOR_PENDING_MESSAGES,
        }
    }

    pub open spec fn ceiling(self, trusted: bool) -> u64 {
        if trusted {
            self.trusted
        } else {
            self.untrusted
        }
    }
}

/// The smallest premium that a replacement must exceed: the old premium,
/// plus its replace-by-fee fraction rounded down, plus one.
pub open spec fn rbf_threshold(premium: int) -> int {
    premium + premium * (RBF_NUM as int) / (RBF_DENOM as int) + 1
}

/// Whether `new_premium` is high enough to replace a message paying `old_premium`.
pub fn rbf_allows(old_premium: u128, new_premium: u128) -> (r: bool)
    ensures
        r == (new_premium > rbf_threshold(old_premium as int)),
{
    let q = old_premium / RBF_DENOM;
    let rem = old_premium % RBF_DENOM;
    assert(old_premium * 25 / 100 == q * 25 + rem * 25 / 100) by (nonlinear_arith)
        requires
            q == old_premium / 100,
            rem == old_premium % 100,
    ;
    let frac = q * RBF_NUM + rem * RBF_NUM / RBF_DENOM;
    match old_premium.checked_add(frac) {
        None => false,
        Some(s) => match s.checked_add(1) {
            None => false,
            Some(t) => new_premium > t,
        },
    }
}

/// Messages of one sender, keyed by sequence, and the next sequence to expect.
#[derive(Clone, Debug)]
pub struct MsgSet {
    pub msgs: HashMap<u64, SignedMessage>,
    pub next_sequence: u64,
}

/// What `add` does to `next_sequence`: a message at or beyond it, or into an
/// empty set, moves it just past the message.
pub open spec fn next_after_add(msgs: Map<u64, SignedMessage>, next: u64, seq: u64) -> u64 {
    if msgs.is_empty() || seq >= next {
        (seq + 1) as u64
    } else {
        next
    }
}

impl MsgSet {
    /// Every message is stored under its own sequence number.
    pub open spec fn wf(&self) -> bool {
        forall|k: u64| #[trigger] self.msgs@.contains_key(k) ==> self.msgs@[k]@.message.sequence == k
    }

    /// Every stored message lies below `next_sequence`.
    pub open spec fn below_next(&self) -> bool {
        forall|k: u64| #[trigger] self.msgs@.contains_key(k) ==> k < self.next_sequence
    }

    pub open spec fn len(&self) -> nat {
        self.msgs@.len()
    }

    /// An empty set expecting `sequence` next.
    pub fn new(sequence: u64) -> (r: MsgSet)
        ensures
            r.msgs@ == Map::<u64, SignedMessage>::empty(),
            r.next_sequence == sequence,
            r.wf(),
            r.below_next(),
    {
        MsgSet { msgs: HashMap::new(), next_sequence: sequence }
    }

    /// Admits a message from a trusted source.
    pub fn add_trusted(&mut self, limits: &PendingLimits, m: SignedMessage) -> (r: Result<(), Error>)
        requires
            old(self).wf(),
            m@.message.sequence < u64::MAX,
        ensures
            Self::add_outcome(*old(self), *final(self), m, limits.trusted, true, r),
    {
        self.add(m, limits.trusted, true)
    }

    /// Admits a message from an untrusted source.
    pub fn add_untrusted(&mut self, limits: &PendingLimits, m: SignedMessage) -> (r: Result<
        (),
        Error,
    >)
        requires
            old(self).wf(),
            m@.message.sequence < u64::MAX,
        ensures
            Self::add_outcome(*old(self), *final(self), m, limits.untrusted, false, r),
    {
        self.add(m, limits.untrusted, false)
    }

    /// The effect of admitting `m` under `ceiling`: `next_sequence` moves as
    /// [`next_after_add`] says whatever the outcome; a message with the same
    /// identifier at that sequence is a duplicate; one with another identifier
    /// must beat the replace-by-fee threshold; a full set refuses; otherwise
    /// the message is stored under its sequence, replacing what was there.
    pub open spec fn add_outcome(
        pre: MsgSet,
        post: MsgSet,
        m: SignedMessage,
        ceiling: u64,
        trusted: bool,
        r: Result<(), Error>,
    ) -> bool {
        let seq = m@.message.sequence;
        let existing = pre.msgs@.contains_key(seq);
        let ex: SignedMessageModel = pre.msgs@[seq]@;
        &&& post.next_sequence == next_after_add(pre.msgs@, pre.next_sequence, seq)
        &&& post.wf()
        &&& (pre.below_next() ==> post.below_next())
        &&& if existing && same_cid(m@, ex) {
            r == Err::<(), Error>(Error::DuplicateSequence) && post.msgs@ == pre.msgs@
        } else if existing && m@.message.gas_premium <= rbf_threshold(
            ex.message.gas_premium as int,
        ) {
            r == Err::<(), Error>(Error::GasPriceTooLow) && post.msgs@ == pre.msgs@
        } else if pre.msgs@.len() >= ceiling {
            r == Err::<(), Error>(Error::TooManyPendingMessages(m@.message.from, trusted))
                && post.msgs@ == pre.msgs@
        } else {
            &&& r is Ok
            &&& post.msgs@ == pre.msgs@.insert(seq, m)
            &&& post.msgs@.len() <= ceiling
        }
    }

    fn add(&mut self, m: SignedMessage, ceiling: u64, trusted: bool) -> (r: Result<(), Error>)
        requires
            old(self).wf(),
            m@.message.sequence < u64::MAX,
        ensures
            Self::add_outcome(*old(self), *final(self), m, ceiling, trusted, r),
    {
        let seq = m.sequence();
        if self.msgs.is_empty() || seq >= self.next_sequence {
            self.next_sequence = seq + 1;
        }
        match self.msgs.get(&seq) {
            Some(exms) => {
                if m.same_cid_as(exms) {
                    return Err(Error::DuplicateSequence);
                }
                if !rbf_allows(exms.message.gas_premium, m.message.gas_premium) {
                    return Err(Error::GasPriceTooLow);
                }
            },
            None => {},
        }
        if self.msgs.len() as u64 >= ceiling {
            return Err(Error::TooManyPendingMessages(m.from(), trusted));
        }
        self.msgs.insert(seq, m);
        Ok(())
    }

    /// The effect of removing the message at `sequence`.
    pub open spec fn rm_outcome(pre: MsgSet, post: MsgSet, sequence: u64, applied: bool) -> bool {
        &&& post.wf()
        &&& post.msgs@ == pre.msgs@.remove(sequence)
        &&& (pre.below_next() && applied ==> post.below_next())
        &&& !pre.msgs@.contains_key(sequence) ==> if applied && sequence >= pre.next_sequence {
            &&& sequence < post.next_sequence
            &&& forall|k: u64|
                sequence < k < post.next_sequence ==> #[trigger] pre.msgs@.contains_key(k)
            &&& (post.next_sequence == u64::MAX || !pre.msgs@.contains_key(post.next_sequence))
        } else {
            post.next_sequence == pre.next_sequence
        }
        &&& pre.msgs@.contains_key(sequence) ==> post.next_sequence == if applied {
            if sequence >= pre.next_sequence {
                (sequence + 1) as u64
            } else {
                pre.next_sequence
            }
        } else if sequence < pre.next_sequence {
            sequence
        } else {
            pre.next_sequence
        }
    }

    /// Removes the message at `sequence`. An applied message moves
    /// `next_sequence` past it (and, when it was not stored, past the run of
    /// stored messages that follows it); a pruned one rewinds
    /// `next_sequence` to it, leaving a gap to be filled.
    pub fn rm(&mut self, sequence: u64, applied: bool)
        requires
            old(self).wf(),
            applied ==> sequence < u64::MAX,
        ensures
            Self::rm_outcome(*old(self), *final(self), sequence, applied),
    {
        let removed = self.msgs.remove(&sequence);
        match removed {
            None => {
                assert(old(self).msgs@.remove(sequence) =~= old(self).msgs@);
                if applied && sequence >= self.next_sequence {
                    self.next_sequence = sequence + 1;
                    while self.next_sequence < u64::MAX && self.msgs.contains_key(
                        &self.next_sequence,
                    )
                        invariant
                            self.wf(),
                            self.msgs@ == old(self).msgs@,
                            sequence < self.next_sequence,
                            old(self).below_next() ==> self.below_next(),
                            forall|k: u64|
                                sequence < k < self.next_sequence ==> #[trigger] self.msgs@.contains_key(k),
                        decreases u64::MAX - self.next_sequence,
                    {
                        self.next_sequence = self.next_sequence + 1;
                    }
                }
            },
            Some(_) => {
                if applied {
                    if sequence >= self.next_sequence {
                        self.next_sequence = sequence + 1;
                    }
                } else if sequence < self.next_sequence {
                    self.next_sequence = sequence;
                }
            },
        }
    }
}


/// A message admitted at a sequence that already held another pays a gas
/// premium above the replace-by-fee threshold of the one it displaces, and
/// the displaced message is no longer in the set.
pub proof fn lemma_replacement_beats_fee(
    pre: MsgSet,
    post: MsgSet,
    m2: SignedMessage,
    ceiling: u64,
    trusted: bool,
    r: Result<(), Error>,
)
    requires
        pre.wf(),
        pre.msgs@.contains_key(m2@.message.sequence),
        MsgSet::add_outcome(pre, post, m2, ceiling, trusted, r),
        r is Ok,
    ensures
        m2@.message.gas_premium > rbf_threshold(
            pre.msgs@[m2@.message.sequence]@.message.gas_premium as int,
        ),
        forall|k: u64| #[trigger] post.msgs@.contains_key(k) ==> post.msgs@[k]@ != pre.msgs@[m2@.message.sequence]@,
{
    let seq = m2@.message.sequence;
    let m1 = pre.msgs@[seq];
    assert forall|k: u64| #[trigger] post.msgs@.contains_key(k) implies post.msgs@[k]@ != m1@ by {
        if k != seq {
            assert(post.msgs@[k] == pre.msgs@[k]);
            assert(pre.msgs@[k]@.message.sequence == k);
        } else {
            assert(post.msgs@[k] == m2);
            if m2@ == m1@ {
                assert(same_cid(m2@, m1@));
            }
        }
    }
}

} // verus!
