use forest_mpool::admission::{
    base_fee_lower_bound, check_message, verify_msg_before_add, BlockHeader, PriceList, Tipset,
    MAX_MESSAGE_SIZE,
};
use forest_mpool::message::{
    ChainMessage, Error, Message, Signature, SignatureType, SignedMessage, TOTAL_FILECOIN,
};
use forest_mpool::msg_set::{rbf_allows, MsgSet, PendingLimits};
use forest_mpool::pool::{check_gas_limit, remove, republish_interval, LocalFacts, MemoryProvider, MessagePool, SenderState};
use std::collections::HashMap;

fn msg(from: u64, sequence: u64, premium: u128) -> SignedMessage {
    SignedMessage {
        message: Message {
            version: 0,
            to: 99,
            from,
            sequence,
            value: 10,
            method_num: 0,
            params: vec![],
            gas_limit: 1_000_000,
            gas_fee_cap: 1_000,
            gas_premium: premium,
        },
        signature: Signature { sig_type: SignatureType::Secp256k1, bytes: vec![1, 2, 3] },
    }
}

fn tipset(base_fee: u128) -> Tipset {
    Tipset { epoch: 10, blocks: vec![BlockHeader { miner: 1, parent_base_fee: base_fee }] }
}

fn rich(sequence: u64) -> SenderState {
    SenderState { sequence, balance: 1_000_000_000_000_000, valid_sender: true }
}

fn pool() -> MessagePool {
    MessagePool::new(tipset(100), PendingLimits::default_limits(), PriceList::current())
}

fn sequences(v: &[SignedMessage]) -> Vec<u64> {
    v.iter().map(|m| m.message.sequence).collect()
}

#[test]
fn rbf_accepts_only_above_threshold() {
    let limits = PendingLimits::default_limits();
    let mut set = MsgSet::new(0);
    assert_eq!(set.add_trusted(&limits, msg(1, 5, 100)), Ok(()));
    assert_eq!(set.add_trusted(&limits, msg(1, 5, 125)), Err(Error::GasPriceTooLow));
    assert_eq!(set.add_trusted(&limits, msg(1, 5, 126)), Err(Error::GasPriceTooLow));
    assert_eq!(set.add_trusted(&limits, msg(1, 5, 127)), Ok(()));
    assert_eq!(set.msgs.len(), 1);
    assert_eq!(set.msgs[&5].message.gas_premium, 127);
    assert_eq!(set.next_sequence, 6);
}

#[test]
fn rbf_threshold_values() {
    assert!(!rbf_allows(100, 126));
    assert!(rbf_allows(100, 127));
    assert!(!rbf_allows(0, 1));
    assert!(rbf_allows(0, 2));
    assert!(!rbf_allows(u128::MAX, u128::MAX));
}

#[test]
fn same_message_twice_is_duplicate() {
    let limits = PendingLimits::default_limits();
    let mut set = MsgSet::new(0);
    assert_eq!(set.add_trusted(&limits, msg(1, 0, 100)), Ok(()));
    assert_eq!(set.add_trusted(&limits, msg(1, 0, 100)), Err(Error::DuplicateSequence));
}

#[test]
fn bls_messages_differing_in_signature_share_an_identifier() {
    let limits = PendingLimits::default_limits();
    let mut set = MsgSet::new(0);
    let mut a = msg(1, 0, 100);
    a.signature.sig_type = SignatureType::Bls;
    let mut b = a.clone();
    b.signature.bytes = vec![9];
    assert_eq!(set.add_trusted(&limits, a), Ok(()));
    assert_eq!(set.add_trusted(&limits, b), Err(Error::DuplicateSequence));
}

#[test]
fn untrusted_eleventh_message_rejected() {
    let limits = PendingLimits::default_limits();
    let mut set = MsgSet::new(0);
    for s in 0..10 {
        assert_eq!(set.add_untrusted(&limits, msg(7, s, 100)), Ok(()));
    }
    assert_eq!(
        set.add_untrusted(&limits, msg(7, 10, 100)),
        Err(Error::TooManyPendingMessages(7, false))
    );
    assert_eq!(set.msgs.len(), 10);
}

#[test]
fn trusted_thousand_and_first_message_rejected() {
    let limits = PendingLimits::default_limits();
    let mut set = MsgSet::new(0);
    for s in 0..1000 {
        assert_eq!(set.add_trusted(&limits, msg(7, s, 100)), Ok(()));
    }
    assert_eq!(
        set.add_trusted(&limits, msg(7, 1000, 100)),
        Err(Error::TooManyPendingMessages(7, true))
    );
}

#[test]
fn rm_applied_and_pruned() {
    let limits = PendingLimits::default_limits();
    let mut set = MsgSet::new(3);
    for s in 3..6 {
        set.add_trusted(&limits, msg(1, s, 100)).unwrap();
    }
    assert_eq!(set.next_sequence, 6);
    set.rm(4, true);
    assert_eq!(set.next_sequence, 6);
    set.rm(3, false);
    assert_eq!(set.next_sequence, 3);
    set.rm(9, true);
    assert_eq!(set.next_sequence, 10);
    let mut gap = MsgSet::new(0);
    gap.add_trusted(&limits, msg(1, 0, 1)).unwrap();
    gap.add_trusted(&limits, msg(1, 2, 1)).unwrap();
    gap.add_trusted(&limits, msg(1, 3, 1)).unwrap();
    gap.rm(2, false);
    assert_eq!(gap.next_sequence, 2);
    gap.add_trusted(&limits, msg(1, 2, 1)).unwrap();
    assert_eq!(gap.next_sequence, 3);
    gap.rm(1, true);
    assert_eq!(gap.next_sequence, 3);
    gap.rm(5, true);
    assert_eq!(gap.next_sequence, 6);
}

#[test]
fn apply_then_reorg_leaves_gap() {
    let mut api = MemoryProvider::new();
    let mut p = pool();
    for s in 3..6 {
        assert_eq!(p.add(&mut api, msg(42, s, 100), 200, true, rich(3)), Ok(()));
    }
    let applied = vec![msg(42, 4, 100)];
    let repub = p.head_change(&mut api, vec![], &applied, tipset(100));
    assert!(repub);
    let left = p.pending_for(42).unwrap();
    assert_eq!(sequences(&left), vec![3, 5]);
    assert_eq!(p.pending[&42].next_sequence, 6);
    assert_eq!(p.get_sequence(42, 3), 6);
    assert_eq!(p.get_sequence(42, 8), 8);
    assert_eq!(p.get_sequence(5, 2), 2);
}

#[test]
fn reverted_messages_return_to_pending() {
    let mut api = MemoryProvider::new();
    let mut p = pool();
    let repub = p.head_change(&mut api, vec![(msg(8, 2, 100), 2)], &vec![], tipset(100));
    assert!(!repub);
    assert_eq!(sequences(&p.pending_for(8).unwrap()), vec![2]);
}

#[test]
fn pending_for_sorts_by_sequence() {
    let mut api = MemoryProvider::new();
    let mut p = pool();
    for s in [9u64, 4, 7, 5] {
        p.add(&mut api, msg(1, s, 100), 200, true, rich(0)).unwrap();
    }
    assert_eq!(sequences(&p.pending_for(1).unwrap()), vec![4, 5, 7, 9]);
    assert!(p.pending_for(2).is_none());
}

#[test]
fn gas_limit_boundary() {
    let mut api = MemoryProvider::new();
    let mut p = pool();
    let mut over = msg(1, 0, 100);
    over.message.gas_limit = 100_000_001;
    assert_eq!(p.add_helper(&mut api, over, 0), Err(Error::GasLimitTooHigh));
    let mut at = msg(1, 0, 100);
    at.message.gas_limit = 100_000_000;
    assert_eq!(p.add_helper(&mut api, at, 0), Ok(()));
}

#[test]
fn message_size_boundary() {
    let m = msg(1, 0, 100);
    assert_eq!(check_message(&m, MAX_MESSAGE_SIZE - 1, true), Ok(()));
    assert_eq!(check_message(&m, MAX_MESSAGE_SIZE, true), Err(Error::MessageTooBig));
    assert_eq!(check_message(&m, MAX_MESSAGE_SIZE + 1, true), Err(Error::MessageTooBig));
}

#[test]
fn static_checks_report_each_error() {
    let mut m = msg(1, 0, 100);
    m.message.value = TOTAL_FILECOIN + 1;
    assert_eq!(check_message(&m, 100, true), Err(Error::MessageValueTooHigh));
    let mut m = msg(1, 0, 50);
    m.message.gas_fee_cap = 99;
    assert_eq!(check_message(&m, 100, true), Err(Error::GasFeeCapTooLow));
    let m = msg(1, 0, 100);
    assert_eq!(check_message(&m, 100, false), Err(Error::InvalidSignature));
    let mut m = msg(1, 0, 2000);
    m.message.gas_fee_cap = 1000;
    assert_eq!(check_message(&m, 100, true), Err(Error::InvalidForBlockInclusion));
    let mut m = msg(1, 0, 100);
    m.message.version = 1;
    assert_eq!(check_message(&m, 100, true), Err(Error::InvalidForBlockInclusion));
}

#[test]
fn minimum_gas_depends_on_length() {
    let prices = PriceList::current();
    assert_eq!(prices.on_chain_message(100), Some(38863 + (36 + 100) * 1300));
    let mut m = msg(1, 0, 100);
    m.message.gas_limit = 38863 + (36 + 100) * 1300 - 1;
    assert_eq!(
        verify_msg_before_add(&m, 100, &tipset(100), false, &prices),
        Err(Error::InvalidForBlockInclusion)
    );
    m.message.gas_limit += 1;
    assert_eq!(verify_msg_before_add(&m, 100, &tipset(100), false, &prices), Ok(false));
}

#[test]
fn base_fee_lower_bound_values() {
    assert_eq!(base_fee_lower_bound(1_073_741_824), 282_475_249);
    assert_eq!(base_fee_lower_bound(100), 26);
    assert_eq!(base_fee_lower_bound(0), 0);
    assert_eq!(
        base_fee_lower_bound(u128::MAX),
        (u128::MAX / 1_073_741_824) * 282_475_249 + (u128::MAX % 1_073_741_824) * 282_475_249 / 1_073_741_824
    );
}

#[test]
fn local_message_below_lower_bound_is_kept_unpublished() {
    let mut api = MemoryProvider::new();
    let mut p = MessagePool::new(tipset(10_000), PendingLimits::default_limits(), PriceList::current());
    let bound = base_fee_lower_bound(10_000);
    let mut m = msg(3, 0, 100);
    m.message.gas_fee_cap = bound - 1;
    assert_eq!(p.push(&mut api, m.clone(), 200, true, rich(0)), Ok(false));
    assert_eq!(p.local_msgs.len(), 1);
    assert_eq!(p.local_addrs, vec![3]);
    let mut remote = msg(4, 0, 100);
    remote.message.gas_fee_cap = bound - 1;
    assert_eq!(p.add(&mut api, remote, 200, true, rich(0)), Err(Error::SoftValidationFailure));
    let mut ok = msg(5, 0, 100);
    ok.message.gas_fee_cap = bound;
    assert_eq!(p.push(&mut api, ok, 200, true, rich(0)), Ok(true));
}

#[test]
fn state_checks_refuse() {
    let mut api = MemoryProvider::new();
    let mut p = pool();
    assert_eq!(p.add(&mut api, msg(1, 2, 100), 200, true, rich(3)), Err(Error::SequenceTooLow));
    let poor = SenderState { sequence: 0, balance: 10, valid_sender: true };
    assert_eq!(p.add(&mut api, msg(1, 2, 100), 200, true, poor), Err(Error::NotEnoughFunds));
    let invalid = SenderState { sequence: 0, balance: u128::MAX, valid_sender: false };
    assert_eq!(p.add(&mut api, msg(1, 2, 100), 200, true, invalid), Err(Error::InvalidSender));
    assert!(p.pending.is_empty());
}

#[test]
fn both_forms_are_stored_and_bls_signature_recovered() {
    let mut api = MemoryProvider::new();
    let mut p = pool();
    let mut m = msg(6, 0, 100);
    m.signature = Signature { sig_type: SignatureType::Bls, bytes: vec![4, 5, 6] };
    assert_eq!(p.add(&mut api, m.clone(), 200, true, rich(0)), Ok(()));
    assert!(api.contains(&ChainMessage::Signed(m.clone())));
    assert!(api.contains(&ChainMessage::Unsigned(m.message.clone())));
    let recovered = p.recover_sig(&m.message).unwrap();
    assert_eq!(recovered, m);
    assert!(p.recover_sig(&msg(6, 1, 100).message).is_none());
}

#[test]
fn remove_drops_empty_sets() {
    let limits = PendingLimits::default_limits();
    let mut pending: HashMap<u64, MsgSet> = HashMap::new();
    let mut set = MsgSet::new(0);
    set.add_trusted(&limits, msg(1, 0, 1)).unwrap();
    pending.insert(1, set);
    assert_eq!(remove(2, &mut pending, 0, true), Ok(()));
    assert_eq!(pending.len(), 1);
    assert_eq!(remove(1, &mut pending, 0, true), Ok(()));
    assert!(pending.is_empty());
}

#[test]
fn pending_lists_every_sender() {
    let mut api = MemoryProvider::new();
    let mut p = pool();
    for (from, s) in [(1u64, 2u64), (2, 0), (1, 1), (2, 1)] {
        p.add(&mut api, msg(from, s, 100), 200, true, rich(0)).unwrap();
    }
    let (all, ts) = p.pending().unwrap();
    assert_eq!(ts.epoch, 10);
    assert_eq!(all.len(), 4);
    let of = |a: u64| -> Vec<u64> {
        all.iter().filter(|m| m.message.from == a).map(|m| m.message.sequence).collect()
    };
    assert_eq!(of(1), vec![1, 2]);
    assert_eq!(of(2), vec![0, 1]);
    let empty = pool();
    assert_eq!(empty.pending().unwrap().0.len(), 0);
}

#[test]
fn messages_for_blocks_recovers_bls_signatures() {
    let mut api = MemoryProvider::new();
    let mut p = pool();
    let mut bls = msg(6, 0, 100);
    bls.signature = Signature { sig_type: SignatureType::Bls, bytes: vec![4, 5, 6] };
    p.add(&mut api, bls.clone(), 200, true, rich(0)).unwrap();
    let secp = msg(7, 0, 100);
    let blocks = vec![(vec![bls.message.clone()], vec![secp.clone()]), (vec![], vec![])];
    assert_eq!(p.messages_for_blocks(&blocks), Ok(vec![secp.clone(), bls.clone()]));
    let missing = vec![(vec![msg(9, 0, 1).message], vec![])];
    assert!(matches!(p.messages_for_blocks(&missing), Err(Error::Other(_))));
}

#[test]
fn load_local_drops_applied_messages() {
    let mut api = MemoryProvider::new();
    let mut p = pool();
    p.push(&mut api, msg(1, 0, 100), 200, true, rich(0)).unwrap();
    p.push(&mut api, msg(2, 5, 100), 200, true, rich(0)).unwrap();
    let facts = vec![
        LocalFacts { encoded_len: 200, signature_valid: true, sender: rich(0) },
        LocalFacts { encoded_len: 200, signature_valid: true, sender: rich(6) },
    ];
    p.load_local(&mut api, &facts);
    assert_eq!(p.local_msgs.len(), 1);
    assert_eq!(p.local_msgs[0].message.from, 1);
}

#[test]
fn gas_limit_check_is_inclusive() {
    let mut m = msg(1, 0, 1).message;
    m.gas_limit = 100_000_000;
    assert_eq!(check_gas_limit(&m), Ok(()));
    m.gas_limit = 100_000_001;
    assert_eq!(check_gas_limit(&m), Err(Error::GasLimitTooHigh));
}

#[test]
fn refused_gas_limit_caches_bls_but_stores_nothing() {
    let mut api = MemoryProvider::new();
    let mut p = pool();
    let mut m = msg(6, 0, 100);
    m.signature = Signature { sig_type: SignatureType::Bls, bytes: vec![1] };
    m.message.gas_limit = 100_000_001;
    assert_eq!(p.add_helper(&mut api, m.clone(), 0), Err(Error::GasLimitTooHigh));
    assert!(api.messages.is_empty());
    assert_eq!(p.bls_sig_cache.last(), Some(&m));
}

#[test]
fn republish_flag_follows_final_pending() {
    let mut api = MemoryProvider::new();
    let mut p = pool();
    p.add(&mut api, msg(42, 0, 100), 200, true, rich(0)).unwrap();
    let applied = vec![msg(42, 0, 100)];
    assert!(!p.head_change(&mut api, vec![], &applied, tipset(100)));
    assert!(p.pending.is_empty());
}

#[test]
fn republish_selects_viable_local_messages() {
    let mut api = MemoryProvider::new();
    let mut p = MessagePool::new(tipset(10_000), PendingLimits::default_limits(), PriceList::current());
    let bound = forest_mpool::admission::base_fee_lower_bound(10_000);
    let mut low = msg(3, 0, 100);
    low.message.gas_fee_cap = bound - 1;
    p.push(&mut api, low, 200, true, rich(0)).unwrap();
    let mut high = msg(3, 1, 100);
    high.message.gas_fee_cap = 5_000;
    p.push(&mut api, high, 200, true, rich(0)).unwrap();
    let mut remote = msg(4, 0, 100);
    remote.message.gas_fee_cap = 5_000;
    p.add(&mut api, remote, 200, true, rich(0)).unwrap();
    let out = p.messages_to_republish();
    assert_eq!(out.len(), 1);
    assert_eq!((out[0].message.from, out[0].message.sequence), (3, 1));
    assert_eq!(republish_interval(30, 6), Some(306));
    assert_eq!(republish_interval(u64::MAX, 0), None);
}

#[test]
fn local_messages_are_recorded_once() {
    let mut api = MemoryProvider::new();
    let mut p = pool();
    let m = msg(1, 0, 100);
    p.push(&mut api, m.clone(), 200, true, rich(0)).unwrap();
    let _ = p.push(&mut api, m, 200, true, rich(0));
    assert_eq!(p.local_msgs.len(), 1);
}
