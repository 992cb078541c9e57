use services::chain::{Chain, ChainState, SendRejection, Transaction};
use services::pool::{AmmPool, Pools};
use services::token::Token;
use services::token_map::TokenMap;

const ALL: [Token; 7] = [
    Token::USDC,
    Token::USDT,
    Token::ETH,
    Token::BTC,
    Token::NEX,
    Token::DOGE,
    Token::HYPE,
];

fn send(from: u32, to: u32, token: Token, amount: u64) -> Transaction<u64> {
    Transaction::Send { from, to, token, amount }
}

/// Submits the transactions of `outcomes`, takes them for processing and commits a
/// block with their outcomes.
fn run_round(state: &mut ChainState<u64>, outcomes: Vec<(Transaction<u64>, bool)>, timestamp: u64) {
    for (tx, _) in &outcomes {
        state.submit_transaction(*tx);
    }
    let taken = state.take_pending();
    assert_eq!(taken.len(), outcomes.len());
    let succeeded: Vec<bool> = outcomes.iter().map(|(_, ok)| *ok).collect();
    state.commit_block(succeeded, timestamp);
}

#[test]
fn token_map_insert_and_get() {
    let mut m: TokenMap<u64> = TokenMap::empty();
    assert_eq!(m.get(Token::ETH), None);
    m.insert(Token::ETH, 7);
    m.insert(Token::BTC, 9);
    m.insert(Token::ETH, 8);
    assert_eq!(m.get(Token::ETH), Some(8));
    assert_eq!(m.get(Token::BTC), Some(9));
    assert_eq!(m.get(Token::NEX), None);
    let f = TokenMap::filled(3u64);
    for t in ALL {
        assert_eq!(f.get(t), Some(3));
    }
}

#[test]
fn amm_pool_new_holds_both_reserves() {
    let pool = AmmPool::new(Token::NEX, 10u64, Token::ETH, 20u64);
    assert_eq!(pool.reserve(Token::NEX), Some(10));
    assert_eq!(pool.reserve(Token::ETH), Some(20));
    assert_eq!(pool.reserve(Token::BTC), None);
    // The same token twice keeps the second amount.
    let pool = AmmPool::new(Token::NEX, 10u64, Token::NEX, 20u64);
    assert_eq!(pool.reserve(Token::NEX), Some(20));
}

#[test]
fn pools_put_and_get() {
    let mut pools: Pools<u64> = Pools::empty();
    let key = (Token::ETH, Token::NEX);
    assert!(pools.get(key).is_none());
    pools.put(key, AmmPool::new(Token::ETH, 1, Token::NEX, 2));
    let pool = pools.get(key).unwrap();
    assert_eq!(pool.reserve(Token::NEX), Some(2));
    assert!(pools.get((Token::NEX, Token::ETH)).is_none());
}

#[test]
fn genesis_distributes_every_token_to_every_account() {
    let chain = Chain::new(3, 333u64, 1000u64);
    let state = &chain.state;
    for id in 0..3 {
        assert!(state.has_account(id));
        for t in ALL {
            assert_eq!(state.balance(id, t), Some(333));
        }
    }
    assert!(!state.has_account(3));
    assert_eq!(state.balance(3, Token::NEX), None);
    assert_eq!(state.next_block_id(), 0);
    assert!(state.recent_blocks(None).is_empty());
}

#[test]
fn genesis_with_no_accounts() {
    let chain = Chain::new(0, 0u64, 1000u64);
    assert!(!chain.state.has_account(0));
    assert_eq!(chain.state.pool_reserves(Token::NEX, Token::ETH), Some((1000, 1000)));
}

#[test]
fn genesis_creates_a_pool_for_every_distinct_pair() {
    let chain = Chain::new(1, 1u64, 1000u64);
    let mut pools = 0;
    for a in ALL {
        for b in ALL {
            let reserves = chain.state.pool_reserves(a, b);
            if a == b {
                assert_eq!(reserves, None);
            } else {
                assert_eq!(reserves, Some((1000, 1000)));
                pools += 1;
            }
        }
    }
    // 21 pairs, each seen in both orders.
    assert_eq!(pools, 42);
}

#[test]
fn check_send_rejections() {
    let chain = Chain::new(2, 50u64, 1000u64);
    let s = &chain.state;
    assert_eq!(s.check_send(0, 0, Token::NEX), Err(SendRejection::SameAccount));
    assert_eq!(s.check_send(0, 5, Token::NEX), Err(SendRejection::UnknownAccount));
    assert_eq!(s.check_send(5, 0, Token::NEX), Err(SendRejection::UnknownAccount));
    assert_eq!(s.check_send(0, 1, Token::NEX), Ok(50));
}

#[test]
fn settle_send_moves_only_two_balances() {
    let mut chain = Chain::new(3, 50u64, 1000u64);
    chain.state.settle_send(0, 1, Token::NEX, 40, 60);
    assert_eq!(chain.state.balance(0, Token::NEX), Some(40));
    assert_eq!(chain.state.balance(1, Token::NEX), Some(60));
    assert_eq!(chain.state.balance(2, Token::NEX), Some(50));
    assert_eq!(chain.state.balance(0, Token::ETH), Some(50));
    assert_eq!(chain.state.pool_reserves(Token::NEX, Token::ETH), Some((1000, 1000)));
}

#[test]
fn settle_swap_updates_account_and_pool() {
    let mut chain = Chain::new(2, 500u64, 1000u64);
    chain
        .state
        .settle_swap(0, Token::NEX, Token::ETH, 400, 590, 1100, 910);
    assert_eq!(chain.state.balance(0, Token::NEX), Some(400));
    assert_eq!(chain.state.balance(0, Token::ETH), Some(590));
    assert_eq!(chain.state.balance(1, Token::NEX), Some(500));
    assert_eq!(chain.state.pool_reserves(Token::NEX, Token::ETH), Some((1100, 910)));
    assert_eq!(chain.state.pool_reserves(Token::ETH, Token::NEX), Some((910, 1100)));
    assert_eq!(chain.state.pool_reserves(Token::NEX, Token::BTC), Some((1000, 1000)));
}

#[test]
fn pending_transactions_are_taken_in_order() {
    let mut chain = Chain::new(2, 50u64, 1000u64);
    chain.state.submit_transaction(send(0, 1, Token::NEX, 1));
    chain.state.submit_transaction(send(1, 0, Token::ETH, 2));
    let taken = chain.state.take_pending();
    assert_eq!(taken.len(), 2);
    assert!(matches!(taken[0], Transaction::Send { amount: 1, .. }));
    assert!(matches!(taken[1], Transaction::Send { amount: 2, .. }));
    assert!(chain.state.pending_transactions().is_empty());
    assert_eq!(chain.state.processing().len(), 2);
}

#[test]
fn committed_block_keeps_only_successes() {
    let mut chain = Chain::new(2, 50u64, 1000u64);
    let outcomes = vec![
        (send(0, 1, Token::NEX, 1), true),
        (send(0, 0, Token::NEX, 2), false),
        (send(1, 0, Token::NEX, 3), true),
    ];
    run_round(&mut chain.state, outcomes, 1_699_123_456);
    let blocks = chain.state.recent_blocks(None);
    assert_eq!(blocks.len(), 1);
    assert_eq!(blocks[0].id, 0);
    assert_eq!(blocks[0].timestamp, 1_699_123_456);
    assert_eq!(blocks[0].transactions.len(), 2);
    assert!(matches!(blocks[0].transactions[0], Transaction::Send { amount: 1, .. }));
    assert!(matches!(blocks[0].transactions[1], Transaction::Send { amount: 3, .. }));
    assert_eq!(chain.state.next_block_id(), 1);
}

#[test]
fn empty_batches_still_make_blocks() {
    let mut chain = Chain::new(1, 50u64, 1000u64);
    run_round(&mut chain.state, Vec::new(), 10);
    run_round(&mut chain.state, vec![(send(0, 0, Token::NEX, 1), false)], 11);
    let blocks = chain.state.recent_blocks(None);
    assert_eq!(blocks.len(), 2);
    assert!(blocks[0].transactions.is_empty());
    assert!(blocks[1].transactions.is_empty());
}

#[test]
fn recent_blocks_are_newest_first() {
    let mut chain = Chain::new(1, 50u64, 1000u64);
    for ts in 100..105u64 {
        run_round(&mut chain.state, Vec::new(), ts);
    }
    let all = chain.state.recent_blocks(None);
    let ids: Vec<u64> = all.iter().map(|b| b.id).collect();
    assert_eq!(ids, vec![4, 3, 2, 1, 0]);
    let last_two = chain.state.recent_blocks(Some(2));
    let ids: Vec<u64> = last_two.iter().map(|b| b.id).collect();
    assert_eq!(ids, vec![4, 3]);
    assert_eq!(last_two[0].timestamp, 104);
    assert_eq!(chain.state.recent_blocks(Some(10)).len(), 5);
    assert!(chain.state.recent_blocks(Some(0)).is_empty());
}

#[test]
fn block_duplicate_is_equal() {
    let mut chain = Chain::new(2, 50u64, 1000u64);
    run_round(&mut chain.state, vec![(send(0, 1, Token::BTC, 4), true)], 9);
    let b = &chain.state.recent_blocks(Some(1))[0];
    let d = b.duplicate();
    assert_eq!(d.id, b.id);
    assert_eq!(d.timestamp, b.timestamp);
    assert_eq!(d.transactions.len(), 1);
    assert!(matches!(d.transactions[0], Transaction::Send { token: Token::BTC, amount: 4, .. }));
}

#[test]
fn works_with_float_amounts() {
    let mut chain = Chain::new(2, 500_000.0f64, 1000.0f64);
    assert_eq!(chain.state.check_send(0, 1, Token::NEX), Ok(500_000.0));
    chain.state.settle_send(0, 1, Token::NEX, 499_949.5, 500_050.5);
    assert_eq!(chain.state.balance(1, Token::NEX), Some(500_050.5));
}

#[test]
fn block_holds_whole_batch_when_all_succeed() {
    let mut chain = Chain::new(2, 50u64, 1000u64);
    let batch = vec![
        (send(0, 1, Token::NEX, 1), true),
        (send(1, 0, Token::ETH, 2), true),
        (send(0, 1, Token::BTC, 3), true),
    ];
    run_round(&mut chain.state, batch, 5);
    let block = &chain.state.recent_blocks(None)[0];
    let amounts: Vec<u64> = block
        .transactions
        .iter()
        .map(|t| match t {
            Transaction::Send { amount, .. } => *amount,
            Transaction::Swap { amount, .. } => *amount,
        })
        .collect();
    assert_eq!(amounts, vec![1, 2, 3]);
}

#[test]
fn block_ids_are_consecutive_and_unique() {
    let mut chain = Chain::new(1, 50u64, 1000u64);
    for ts in 0..4u64 {
        assert_eq!(chain.state.next_block_id(), ts);
        run_round(&mut chain.state, Vec::new(), ts);
    }
    let mut ids: Vec<u64> = chain.state.recent_blocks(None).iter().map(|b| b.id).collect();
    ids.sort();
    ids.dedup();
    assert_eq!(ids, vec![0, 1, 2, 3]);
}

#[test]
fn swap_transactions_are_queued_too() {
    let mut chain = Chain::new(1, 50u64, 1000u64);
    let swap = Transaction::Swap { account: 0, in_token: Token::NEX, out_token: Token::ETH, amount: 10u64 };
    chain.state.submit_transaction(swap);
    let taken = chain.state.take_pending();
    assert!(matches!(
        taken[0],
        Transaction::Swap { account: 0, in_token: Token::NEX, out_token: Token::ETH, amount: 10 }
    ));
}

#[test]
fn submissions_between_rounds_wait_for_the_next_block() {
    let mut chain = Chain::new(2, 50u64, 1000u64);
    chain.state.submit_transaction(send(0, 1, Token::NEX, 1));
    let taken = chain.state.take_pending();
    assert_eq!(taken.len(), 1);
    // A submission while the batch is being processed stays pending.
    chain.state.submit_transaction(send(1, 0, Token::NEX, 2));
    assert_eq!(chain.state.processing().len(), 1);
    assert_eq!(chain.state.pending_transactions().len(), 1);
    chain.state.commit_block(vec![true], 1);
    assert!(chain.state.processing().is_empty());
    assert_eq!(chain.state.pending_transactions().len(), 1);
    let taken = chain.state.take_pending();
    assert_eq!(taken.len(), 1);
    assert!(matches!(taken[0], Transaction::Send { amount: 2, .. }));
    chain.state.commit_block(vec![true], 2);
    let blocks = chain.state.blocks();
    assert_eq!(blocks.len(), 2);
    assert!(matches!(blocks[0].transactions[0], Transaction::Send { amount: 1, .. }));
    assert!(matches!(blocks[1].transactions[0], Transaction::Send { amount: 2, .. }));
}

#[test]
fn taking_twice_keeps_the_uncommitted_batch() {
    let mut chain = Chain::new(2, 50u64, 1000u64);
    chain.state.submit_transaction(send(0, 1, Token::NEX, 1));
    assert_eq!(chain.state.take_pending().len(), 1);
    chain.state.submit_transaction(send(0, 1, Token::NEX, 2));
    let taken = chain.state.take_pending();
    assert_eq!(taken.len(), 2);
    assert!(matches!(taken[0], Transaction::Send { amount: 1, .. }));
    assert!(matches!(taken[1], Transaction::Send { amount: 2, .. }));
}

#[test]
fn cloned_state_is_independent() {
    let mut chain = Chain::new(2, 50u64, 1000u64);
    let copy = chain.state.clone();
    chain.state.settle_send(0, 1, Token::NEX, 40, 60);
    assert_eq!(copy.balance(0, Token::NEX), Some(50));
    assert_eq!(chain.state.balance(0, Token::NEX), Some(40));
}
