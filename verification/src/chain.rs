//! The state of the chain: account balances, liquidity pools, produced blocks and
//! the queue of transactions waiting for the next block.
//!
//! Amounts are of a type `A` that the chain only stores and moves; the arithmetic on
//! amounts (prices, debits and credits) is done by the caller, which hands the new
//! amounts back to the settle operations here.

use vstd::prelude::*;

use crate::pool::{get_pool_key, pool_key, AmmPool, Pools};
use crate::token::{rank_of, Token, TOKEN_COUNT};
use crate::token_map::TokenMap;
use std::collections::HashMap;

verus! {

broadcast use vstd::std_specs::hash::group_hash_axioms;

/// A type alias for account identifiers for clarity.
pub type AccountId = u32;

/// Defines the types of transactions that can be processed.
#[derive(Debug, Clone, Copy)]
pub enum Transaction<A> {
    /// A transaction to send a certain amount of a token from one account to another.
    Send { from: AccountId, to: AccountId, token: Token, amount: A },
    /// A transaction to swap one token for another through an AMM pool.
    Swap { account: AccountId, in_token: Token, out_token: Token, amount: A },
}

/// Represents a block in the blockchain.
/// Each block has a unique ID, a timestamp, and a list of transactions.
#[derive(Debug, Clone)]
pub struct Block<A> {
    pub id: u64,
    pub timestamp: u64,
    pub transactions: Vec<Transaction<A>>,
}

/// The mathematical content of a block.
pub struct BlockRecord<A> {
    pub id: u64,
    pub timestamp: u64,
    pub transactions: Seq<Transaction<A>>,
}

impl<A> View for Block<A> {
    type V = BlockRecord<A>;

    open spec fn view(&self) -> BlockRecord<A> {
        BlockRecord { id: self.id, timestamp: self.timestamp, transactions: self.transactions@ }
    }
}

impl<A: Copy> Block<A> {
    /// A copy of this block.
    pub fn duplicate(&self) -> (b: Block<A>)
        ensures
            b@ == self@,
    {
        let mut transactions: Vec<Transaction<A>> = Vec::new();
        let n = self.transactions.len();
        let mut i: usize = 0;
        while i < n
            invariant
                n == self.transactions@.len(),
                i <= n,
                transactions@ == self.transactions@.take(i as int),
            decreases n - i,
        {
            transactions.push(self.transactions[i]);
            i = i + 1;
            assert(transactions@ =~= self.transactions@.take(i as int));
        }
        assert(transactions@ =~= self.transactions@);
        Block { id: self.id, timestamp: self.timestamp, transactions }
    }
}

/// The transactions of `outcomes` whose processing succeeded, in their order.
pub open spec fn accepted<A>(outcomes: Seq<(Transaction<A>, bool)>) -> Seq<Transaction<A>>
    decreases outcomes.len(),
{
    if outcomes.len() == 0 {
        Seq::empty()
    } else {
        let rest = accepted(outcomes.drop_last());
        if outcomes.last().1 {
            rest.push(outcomes.last().0)
        } else {
            rest
        }
    }
}


/// The transactions of a batch of outcomes, in their order.
pub open spec fn round_transactions<A>(round: Seq<(Transaction<A>, bool)>) -> Seq<Transaction<A>> {
    round.map_values(|o: (Transaction<A>, bool)| o.0)
}

/// The transactions of all the batches, one batch after the other.
pub open spec fn batches_of<A>(rounds: Seq<Seq<(Transaction<A>, bool)>>) -> Seq<Transaction<A>>
    decreases rounds.len(),
{
    if rounds.len() == 0 {
        Seq::empty()
    } else {
        batches_of(rounds.drop_last()) + round_transactions(rounds.last())
    }
}

/// A batch of transactions paired, one by one, with whether their processing succeeded.
pub open spec fn outcomes_of<A>(batch: Seq<Transaction<A>>, succeeded: Seq<bool>) -> Seq<
    (Transaction<A>, bool),
> {
    Seq::new(batch.len(), |i: int| (batch[i], succeeded[i]))
}

/// The mathematical content of the chain state.
pub struct ChainView<A> {
    /// The balances of each account, by token.
    pub accounts: Map<AccountId, Map<Token, A>>,
    /// The reserves of each pool, found under the pool's key.
    pub pools: Map<(Token, Token), Map<Token, A>>,
    /// The blocks produced so far, oldest first.
    pub blocks: Seq<BlockRecord<A>>,
    /// The transactions received but not yet taken for a block, oldest first.
    pub pending_transactions: Seq<Transaction<A>>,
    /// The transactions taken for the next block and not yet committed, oldest first.
    pub processing: Seq<Transaction<A>>,
    /// The ID to be assigned to the next block.
    pub next_block_id: u64,
    /// Every transaction ever submitted, oldest first.
    pub submitted: Seq<Transaction<A>>,
    /// For each block, the batch it was made from, with the outcome of each transaction.
    pub rounds: Seq<Seq<(Transaction<A>, bool)>>,
}

impl<A> ChainView<A> {
    /// The block IDs count up from zero and the next ID follows the last block; each
    /// block holds the successful transactions of its batch; and the submitted
    /// transactions are, in order, the batches of the blocks, then the transactions
    /// being processed, then the pending ones.
    pub open spec fn well_formed(self) -> bool {
        &&& self.next_block_id == self.blocks.len()
        &&& forall|i: int| 0 <= i < self.blocks.len() ==> #[trigger] self.blocks[i].id == i
        &&& self.rounds.len() == self.blocks.len()
        &&& forall|i: int|
            0 <= i < self.blocks.len() ==> #[trigger] self.blocks[i].transactions == accepted(
                self.rounds[i],
            )
        &&& self.submitted == batches_of(self.rounds) + self.processing + self.pending_transactions
    }
}

/// The balances that every account starts with: `amount` of every token.
pub open spec fn full_balances<A>(amount: A) -> Map<Token, A> {
    Map::new(|t: Token| true, |t: Token| amount)
}

/// The reserves that the pool under `key` starts with.
pub open spec fn pair_reserves<A>(key: (Token, Token), reserve: A) -> Map<Token, A> {
    Map::<Token, A>::empty().insert(key.0, reserve).insert(key.1, reserve)
}

/// The pools that the chain starts with: one for every pair of distinct tokens,
/// under the pair's key, holding `reserve` of each of its two tokens.
pub open spec fn genesis_pools<A>(reserve: A) -> Map<(Token, Token), Map<Token, A>> {
    Map::new(
        |k: (Token, Token)| rank_of(k.0) < rank_of(k.1),
        |k: (Token, Token)| pair_reserves(k, reserve),
    )
}

/// The pools for the pairs enumerated before position (`i`, `j`) of the
/// enumeration of pairs by rank.
spec fn pools_before<A>(i: nat, j: nat, reserve: A) -> Map<(Token, Token), Map<Token, A>> {
    Map::new(
        |k: (Token, Token)|
            rank_of(k.0) < rank_of(k.1) && (rank_of(k.0) < i || (rank_of(k.0) == i && rank_of(
                k.1,
            ) < j)),
        |k: (Token, Token)| pair_reserves(k, reserve),
    )
}

/// The state in which the chain starts.
pub open spec fn genesis<A>(num_accounts: u32, amount_per_account: A, reserve: A) -> ChainView<A> {
    ChainView {
        accounts: Map::new(|id: AccountId| id < num_accounts, |id: AccountId| full_balances(amount_per_account)),
        pools: genesis_pools(reserve),
        blocks: Seq::empty(),
        pending_transactions: Seq::empty(),
        processing: Seq::empty(),
        next_block_id: 0,
        submitted: Seq::empty(),
        rounds: Seq::empty(),
    }
}

/// The state after a send from `from` to `to` of `token` has been settled: the
/// sender holds `debited` of the token and the receiver `credited`.
pub open spec fn after_send<A>(
    v: ChainView<A>,
    from: AccountId,
    to: AccountId,
    token: Token,
    debited: A,
    credited: A,
) -> ChainView<A> {
    ChainView {
        accounts: v.accounts.insert(from, v.accounts[from].insert(token, debited)).insert(
            to,
            v.accounts[to].insert(token, credited),
        ),
        ..v
    }
}

/// The state after a swap of `in_token` for `out_token` by `account` has been
/// settled: the account holds `in_balance` and `out_balance` of the two tokens and
/// the pool for the pair holds `in_reserve` and `out_reserve` of them.
pub open spec fn after_swap<A>(
    v: ChainView<A>,
    account: AccountId,
    in_token: Token,
    out_token: Token,
    in_balance: A,
    out_balance: A,
    in_reserve: A,
    out_reserve: A,
) -> ChainView<A> {
    let key = pool_key(in_token, out_token);
    ChainView {
        accounts: v.accounts.insert(
            account,
            v.accounts[account].insert(in_token, in_balance).insert(out_token, out_balance),
        ),
        pools: v.pools.insert(key, v.pools[key].insert(in_token, in_reserve).insert(out_token, out_reserve)),
        ..v
    }
}

/// The verdict on a send before any amount is looked at: the sender's balance of
/// the token, or why the send is refused.
pub open spec fn send_check<A>(v: ChainView<A>, from: AccountId, to: AccountId, token: Token) -> Result<
    A,
    SendRejection,
> {
    if from == to {
        Err(SendRejection::SameAccount)
    } else if !v.accounts.contains_key(from) || !v.accounts.contains_key(to) {
        Err(SendRejection::UnknownAccount)
    } else if !v.accounts[from].contains_key(token) {
        Err(SendRejection::NoBalance)
    } else {
        Ok(v.accounts[from][token])
    }
}

/// Why a send is refused before any amount is looked at.
#[derive(Debug, Clone, Copy, PartialEq, Eq, Structural)]
pub enum SendRejection {
    /// Sending to oneself is not allowed.
    SameAccount,
    /// The sender or the receiver is not an existing account.
    UnknownAccount,
    /// The sender has no balance of the token at all.
    NoBalance,
}

/// Represents the entire state of the blockchain at a given moment.
pub struct ChainState<A> {
    accounts: HashMap<AccountId, TokenMap<A>>,
    pools: Pools<A>,
    blocks: Vec<Block<A>>,
    pending_transactions: Vec<Transaction<A>>,
    processing: Vec<Transaction<A>>,
    next_block_id: u64,
    submitted: Ghost<Seq<Transaction<A>>>,
    rounds: Ghost<Seq<Seq<(Transaction<A>, bool)>>>,
}

impl<A> View for ChainState<A> {
    type V = ChainView<A>;

    closed spec fn view(&self) -> ChainView<A> {
        ChainView {
            accounts: self.accounts@.map_values(|b: TokenMap<A>| b@),
            pools: self.pools@,
            blocks: self.blocks@.map_values(|b: Block<A>| b@),
            pending_transactions: self.pending_transactions@,
            processing: self.processing@,
            next_block_id: self.next_block_id,
            submitted: self.submitted@,
            rounds: self.rounds@,
        }
    }
}

impl<A> ChainState<A> {
    /// Every chain state is well formed.
    #[verifier::type_invariant]
    closed spec fn is_well_formed(self) -> bool {
        self@.well_formed()
    }
}

impl<A: Copy> Clone for ChainState<A> {
    /// A copy of this state.
    fn clone(&self) -> (r: Self)
        ensures
            r@ == self@,
    {
        proof {
            use_type_invariant(self);
        }
        let mut blocks: Vec<Block<A>> = Vec::new();
        let n = self.blocks.len();
        let mut i: usize = 0;
        while i < n
            invariant
                n == self.blocks@.len(),
                i <= n,
                blocks@.len() == i,
                forall|j: int| 0 <= j < i ==> #[trigger] blocks@[j]@ == self.blocks@[j]@,
            decreases n - i,
        {
            blocks.push(self.blocks[i].duplicate());
            i = i + 1;
        }
        assert(blocks@.map_values(|b: Block<A>| b@) =~= self.blocks@.map_values(|b: Block<A>| b@));
        ChainState {
            accounts: self.accounts.clone(),
            pools: self.pools,
            blocks,
            pending_transactions: copy_transactions(&self.pending_transactions),
            processing: copy_transactions(&self.processing),
            next_block_id: self.next_block_id,
            submitted: Ghost(self.submitted@),
            rounds: Ghost(self.rounds@),
        }
    }
}

/// The main chain structure, which holds the current state.
pub struct Chain<A> {
    pub state: ChainState<A>,
}

impl<A: Copy> Chain<A> {
    /// Creates a new chain with an initial state: accounts `0 .. num_accounts`, each
    /// holding `amount_per_account` of every token, and one pool for every pair of
    /// distinct tokens, holding `initial_reserve` of each of its two tokens.
    pub fn new(num_accounts: u32, amount_per_account: A, initial_reserve: A) -> (chain: Self)
        ensures
            chain.state@ == genesis(num_accounts, amount_per_account, initial_reserve),
            chain.state@.well_formed(),
            forall|id: AccountId| #[trigger]
                chain.state@.accounts.contains_key(id) <==> id < num_accounts,
            forall|id: AccountId, t: Token|
                id < num_accounts ==> #[trigger] chain.state@.accounts[id].contains_key(t)
                    && chain.state@.accounts[id][t] == amount_per_account,
            chain.state@.blocks.len() == 0,
            chain.state@.pending_transactions.len() == 0,
            chain.state@.next_block_id == 0,
    {
        proof {
            lemma_genesis_accounts(num_accounts, amount_per_account, initial_reserve);
        }
        let mut accounts: HashMap<AccountId, TokenMap<A>> = HashMap::new();
        let mut i: u32 = 0;
        while i < num_accounts
            invariant
                i <= num_accounts,
                forall|id: AccountId| #[trigger] accounts@.contains_key(id) <==> id < i,
                forall|id: AccountId|
                    accounts@.contains_key(id) ==> #[trigger] accounts@[id]@ == full_balances(
                        amount_per_account,
                    ),
            decreases num_accounts - i,
        {
            accounts.insert(i, TokenMap::filled(amount_per_account));
            i = i + 1;
        }
        let mut pools: Pools<A> = Pools::empty();
        let mut a: u8 = 0;
        assert(pools@ =~= pools_before(0, 1, initial_reserve));
        while a < TOKEN_COUNT
            invariant
                a <= TOKEN_COUNT,
                pools@ == pools_before(a as nat, (a + 1) as nat, initial_reserve),
            decreases TOKEN_COUNT - a,
        {
            let mut b: u8 = a + 1;
            while b < TOKEN_COUNT
                invariant
                    a < TOKEN_COUNT,
                    a < b <= TOKEN_COUNT,
                    pools@ == pools_before(a as nat, b as nat, initial_reserve),
                decreases TOKEN_COUNT - b,
            {
                let t_a = Token::at(a);
                let t_b = Token::at(b);
                let key = get_pool_key(t_a, t_b);
                pools.put(key, AmmPool::new(t_a, initial_reserve, t_b, initial_reserve));
                assert(pools@ =~= pools_before(a as nat, (b + 1) as nat, initial_reserve));
                b = b + 1;
            }
            assert(pools@ =~= pools_before((a + 1) as nat, (a + 2) as nat, initial_reserve));
            a = a + 1;
        }
        assert(pools@ =~= genesis_pools(initial_reserve));
        let state = ChainState {
            accounts,
            pools,
            blocks: Vec::new(),
            pending_transactions: Vec::new(),
            processing: Vec::new(),
            next_block_id: 0,
            submitted: Ghost(Seq::empty()),
            rounds: Ghost(Seq::empty()),
        };
        assert(state@.accounts =~= genesis(num_accounts, amount_per_account, initial_reserve).accounts);
        assert(state@.blocks =~= Seq::<BlockRecord<A>>::empty());
        Chain { state }
    }
}

/// Copies the transactions of `v`.
fn copy_transactions<A: Copy>(v: &Vec<Transaction<A>>) -> (r: Vec<Transaction<A>>)
    ensures
        r@ == v@,
{
    let mut r: Vec<Transaction<A>> = Vec::new();
    let n = v.len();
    let mut i: usize = 0;
    while i < n
        invariant
            n == v@.len(),
            i <= n,
            r@ == v@.take(i as int),
        decreases n - i,
    {
        r.push(v[i]);
        i = i + 1;
        assert(r@ =~= v@.take(i as int));
    }
    assert(r@ =~= v@);
    r
}

impl<A: Copy> ChainState<A> {
    /// The state with no account, no pool, no block and no transaction.
    fn vacant() -> (s: Self)
        ensures
            s@.blocks.len() == 0,
    {
        let s = ChainState {
            accounts: HashMap::new(),
            pools: Pools::empty(),
            blocks: Vec::new(),
            pending_transactions: Vec::new(),
            processing: Vec::new(),
            next_block_id: 0,
            submitted: Ghost(Seq::empty()),
            rounds: Ghost(Seq::empty()),
        };
        assert(s@.blocks =~= Seq::<BlockRecord<A>>::empty());
        s
    }

    /// The ID to be assigned to the next block.
    pub fn next_block_id(&self) -> (id: u64)
        ensures
            id == self@.next_block_id,
            self@.well_formed(),
    {
        proof {
            use_type_invariant(self);
        }
        self.next_block_id
    }

    /// The blocks produced so far, oldest first.
    pub fn blocks(&self) -> (r: &Vec<Block<A>>)
        ensures
            r@.map_values(|b: Block<A>| b@) == self@.blocks,
            self@.well_formed(),
    {
        proof {
            use_type_invariant(self);
        }
        &self.blocks
    }

    /// The transactions received but not yet taken for a block, oldest first.
    pub fn pending_transactions(&self) -> (r: &Vec<Transaction<A>>)
        ensures
            r@ == self@.pending_transactions,
    {
        &self.pending_transactions
    }

    /// The transactions taken for the next block and not yet committed, oldest first.
    pub fn processing(&self) -> (r: &Vec<Transaction<A>>)
        ensures
            r@ == self@.processing,
    {
        &self.processing
    }

    /// Whether `account` is an existing account.
    pub fn has_account(&self, account: AccountId) -> (r: bool)
        ensures
            r == self@.accounts.contains_key(account),
    {
        self.accounts.contains_key(&account)
    }

    /// The balance of `token` held by `account`, if the account exists and holds
    /// an entry for that token.
    pub fn balance(&self, account: AccountId, token: Token) -> (r: Option<A>)
        ensures
            r is Some <==> (self@.accounts.contains_key(account)
                && self@.accounts[account].contains_key(token)),
            r matches Some(v) ==> v == self@.accounts[account][token],
    {
        match self.accounts.get(&account) {
            Some(balances) => balances.get(token),
            None => None,
        }
    }

    /// Adds a received transaction to the queue of pending transactions.
    pub fn submit_transaction(&mut self, transaction: Transaction<A>)
        ensures
            final(self)@ == (ChainView {
                pending_transactions: old(self)@.pending_transactions.push(transaction),
                submitted: old(self)@.submitted.push(transaction),
                ..old(self)@
            }),
            final(self)@.well_formed(),
    {
        let mut st = ChainState::vacant();
        std::mem::swap(self, &mut st);
        proof {
            use_type_invariant(&st);
        }
        let ChainState {
            accounts,
            pools,
            blocks,
            mut pending_transactions,
            processing,
            next_block_id,
            submitted,
            rounds,
        } = st;
        pending_transactions.push(transaction);
        let ghost new_submitted = submitted@.push(transaction);
        assert(new_submitted =~= batches_of(rounds@) + processing@ + pending_transactions@);
        *self = ChainState {
            accounts,
            pools,
            blocks,
            pending_transactions,
            processing,
            next_block_id,
            submitted: Ghost(new_submitted),
            rounds,
        };
    }

    /// Takes the pending transactions for the next block. They join the
    /// transactions already taken and not yet committed; all of these are handed
    /// back, oldest first, and the queue is left empty.
    pub fn take_pending(&mut self) -> (taken: Vec<Transaction<A>>)
        ensures
            taken@ == old(self)@.processing + old(self)@.pending_transactions,
            final(self)@ == (ChainView {
                processing: old(self)@.processing + old(self)@.pending_transactions,
                pending_transactions: Seq::<Transaction<A>>::empty(),
                ..old(self)@
            }),
            final(self)@.well_formed(),
    {
        let mut st = ChainState::vacant();
        std::mem::swap(self, &mut st);
        proof {
            use_type_invariant(&st);
        }
        let ChainState {
            accounts,
            pools,
            blocks,
            mut pending_transactions,
            mut processing,
            next_block_id,
            submitted,
            rounds,
        } = st;
        let ghost old_processing = processing@;
        let ghost old_pending = pending_transactions@;
        processing.append(&mut pending_transactions);
        assert(processing@ =~= old_processing + old_pending);
        assert(pending_transactions@ =~= Seq::<Transaction<A>>::empty());
        assert(submitted@ =~= batches_of(rounds@) + processing@ + pending_transactions@);
        let taken = copy_transactions(&processing);
        *self = ChainState {
            accounts,
            pools,
            blocks,
            pending_transactions,
            processing,
            next_block_id,
            submitted,
            rounds,
        };
        taken
    }

    /// Appends a new block, with the next block ID and the given timestamp, made of
    /// the transactions being processed whose processing succeeded (`succeeded`
    /// holds the outcome of each, in order). No transaction is left in processing.
    pub fn commit_block(&mut self, succeeded: Vec<bool>, timestamp: u64)
        requires
            succeeded@.len() == old(self)@.processing.len(),
            old(self)@.next_block_id < u64::MAX,
        ensures
            final(self)@ == (ChainView {
                blocks: old(self)@.blocks.push(
                    BlockRecord {
                        id: old(self)@.next_block_id,
                        timestamp,
                        transactions: accepted(outcomes_of(old(self)@.processing, succeeded@)),
                    },
                ),
                next_block_id: (old(self)@.next_block_id + 1) as u64,
                processing: Seq::<Transaction<A>>::empty(),
                rounds: old(self)@.rounds.push(outcomes_of(old(self)@.processing, succeeded@)),
                ..old(self)@
            }),
            final(self)@.well_formed(),
            forall|j: int|
                0 <= j < old(self)@.processing.len() && succeeded@[j]
                    ==> final(self)@.blocks.last().transactions.contains(
                    #[trigger] old(self)@.processing[j],
                ),
            forall|k: int|
                0 <= k < final(self)@.blocks.last().transactions.len() ==> succeeded_at(
                    old(self)@.processing,
                    succeeded@,
                    #[trigger] final(self)@.blocks.last().transactions[k],
                ),
    {
        proof {
            lemma_block_keeps_exactly_successes(old(self)@.processing, succeeded@);
        }
        let mut st = ChainState::vacant();
        std::mem::swap(self, &mut st);
        proof {
            use_type_invariant(&st);
        }
        let ChainState {
            accounts,
            pools,
            mut blocks,
            pending_transactions,
            processing,
            next_block_id,
            submitted,
            rounds,
        } = st;
        let ghost outcomes = outcomes_of(processing@, succeeded@);
        let mut transactions: Vec<Transaction<A>> = Vec::new();
        let n = processing.len();
        let mut i: usize = 0;
        while i < n
            invariant
                n == processing@.len(),
                n == succeeded@.len(),
                outcomes == outcomes_of(processing@, succeeded@),
                i <= n,
                transactions@ == accepted(outcomes.take(i as int)),
            decreases n - i,
        {
            assert(outcomes.take(i + 1).drop_last() =~= outcomes.take(i as int));
            assert(outcomes.take(i + 1).last() == (processing@[i as int], succeeded@[i as int]));
            if succeeded[i] {
                transactions.push(processing[i]);
            }
            i = i + 1;
        }
        assert(outcomes.take(n as int) =~= outcomes);
        let block = Block { id: next_block_id, timestamp, transactions };
        let ghost old_blocks = blocks@;
        blocks.push(block);
        let ghost new_rounds = rounds@.push(outcomes);
        assert(new_rounds.drop_last() =~= rounds@);
        assert(round_transactions(outcomes) =~= processing@);
        assert(batches_of(new_rounds) =~= batches_of(rounds@) + processing@);
        assert(blocks@.map_values(|b: Block<A>| b@) =~= old_blocks.map_values(|b: Block<A>| b@).push(
            block@,
        ));
        let empty: Vec<Transaction<A>> = Vec::new();
        assert(submitted@ =~= batches_of(new_rounds) + empty@ + pending_transactions@);
        *self = ChainState {
            accounts,
            pools,
            blocks,
            pending_transactions,
            processing: empty,
            next_block_id: next_block_id + 1,
            submitted,
            rounds: Ghost(new_rounds),
        };
    }

    /// The most recent blocks, newest first: the last `n` of them, or all of them
    /// when `n` is `None`.
    pub fn recent_blocks(&self, n: Option<usize>) -> (r: Vec<Block<A>>)
        ensures
            r@.len() == match n {
                Some(n) => if n < self@.blocks.len() { n as int } else { self@.blocks.len() as int },
                None => self@.blocks.len() as int,
            },
            forall|i: int|
                0 <= i < r@.len() ==> #[trigger] r@[i]@ == self@.blocks[self@.blocks.len() - 1 - i],
    {
        let len = self.blocks.len();
        let count = match n {
            Some(n) => if n < len { n } else { len },
            None => len,
        };
        let mut out: Vec<Block<A>> = Vec::new();
        let mut i: usize = 0;
        while i < count
            invariant
                len == self.blocks@.len(),
                count <= len,
                i <= count,
                out@.len() == i,
                forall|j: int| 0 <= j < i ==> #[trigger] out@[j]@ == self.blocks@[len - 1 - j]@,
            decreases count - i,
        {
            out.push(self.blocks[len - 1 - i].duplicate());
            i = i + 1;
        }
        out
    }

    /// Checks a send of `token` from `from` to `to` before any amount is looked at,
    /// and gives the sender's balance of the token.
    pub fn check_send(&self, from: AccountId, to: AccountId, token: Token) -> (r: Result<A, SendRejection>)
        ensures
            r == send_check(self@, from, to, token),
            r == Err::<A, SendRejection>(SendRejection::SameAccount) <==> from == to,
            r == Err::<A, SendRejection>(SendRejection::UnknownAccount) <==> from != to && (
            !self@.accounts.contains_key(from) || !self@.accounts.contains_key(to)),
            r == Err::<A, SendRejection>(SendRejection::NoBalance) <==> from != to
                && self@.accounts.contains_key(from) && self@.accounts.contains_key(to)
                && !self@.accounts[from].contains_key(token),
            r matches Ok(b) ==> self@.accounts.contains_key(from) && self@.accounts[from].contains_key(
                token,
            ) && b == self@.accounts[from][token],
    {
        proof {
            lemma_send_check_reads_sender(self@, from, to, token);
        }
        if from == to {
            return Err(SendRejection::SameAccount);
        }
        if !self.has_account(from) || !self.has_account(to) {
            return Err(SendRejection::UnknownAccount);
        }
        match self.balance(from, token) {
            Some(balance) => Ok(balance),
            None => Err(SendRejection::NoBalance),
        }
    }

    /// Records the outcome of a send: the sender now holds `debited` of `token` and
    /// the receiver holds `credited` of it.
    pub fn settle_send(&mut self, from: AccountId, to: AccountId, token: Token, debited: A, credited: A)
        requires
            from != to,
            old(self)@.accounts.contains_key(from),
            old(self)@.accounts.contains_key(to),
        ensures
            final(self)@ == after_send(old(self)@, from, to, token, debited, credited),
            final(self)@.accounts.dom() == old(self)@.accounts.dom(),
            final(self)@.well_formed(),
    {
        let mut st = ChainState::vacant();
        std::mem::swap(self, &mut st);
        proof {
            use_type_invariant(&st);
        }
        let ChainState {
            mut accounts,
            pools,
            blocks,
            pending_transactions,
            processing,
            next_block_id,
            submitted,
            rounds,
        } = st;
        let ghost old_accounts = accounts@;
        let mut sender = *accounts.get(&from).unwrap();
        sender.insert(token, debited);
        accounts.insert(from, sender);
        let mut receiver = *accounts.get(&to).unwrap();
        receiver.insert(token, credited);
        accounts.insert(to, receiver);
        let ghost before = old_accounts.map_values(|b: TokenMap<A>| b@);
        assert(accounts@.map_values(|b: TokenMap<A>| b@) =~= before.insert(
            from,
            before[from].insert(token, debited),
        ).insert(to, before[to].insert(token, credited)));
        *self = ChainState {
            accounts,
            pools,
            blocks,
            pending_transactions,
            processing,
            next_block_id,
            submitted,
            rounds,
        };
    }

    /// The reserves of `in_token` and of `out_token` in the pool for that pair, if
    /// the pool exists and trades both tokens.
    pub fn pool_reserves(&self, in_token: Token, out_token: Token) -> (r: Option<(A, A)>)
        ensures
            r is Some <==> ({
                let key = pool_key(in_token, out_token);
                &&& self@.pools.contains_key(key)
                &&& self@.pools[key].contains_key(in_token)
                &&& self@.pools[key].contains_key(out_token)
            }),
            r matches Some(reserves) ==> reserves == (
                self@.pools[pool_key(in_token, out_token)][in_token],
                self@.pools[pool_key(in_token, out_token)][out_token],
            ),
    {
        let key = get_pool_key(in_token, out_token);
        match self.pools.get(key) {
            Some(pool) => match (pool.reserve(in_token), pool.reserve(out_token)) {
                (Some(in_reserve), Some(out_reserve)) => Some((in_reserve, out_reserve)),
                _ => None,
            },
            None => None,
        }
    }

    /// Records the outcome of a swap of `in_token` for `out_token` by `account`: the
    /// account now holds `in_balance` and `out_balance` of the two tokens, and the
    /// pool for the pair holds `in_reserve` and `out_reserve` of them.
    pub fn settle_swap(
        &mut self,
        account: AccountId,
        in_token: Token,
        out_token: Token,
        in_balance: A,
        out_balance: A,
        in_reserve: A,
        out_reserve: A,
    )
        requires
            old(self)@.accounts.contains_key(account),
            old(self)@.pools.contains_key(pool_key(in_token, out_token)),
        ensures
            final(self)@ == after_swap(
                old(self)@,
                account,
                in_token,
                out_token,
                in_balance,
                out_balance,
                in_reserve,
                out_reserve,
            ),
            final(self)@.accounts.dom() == old(self)@.accounts.dom(),
            final(self)@.pools.dom() == old(self)@.pools.dom(),
            final(self)@.well_formed(),
    {
        let mut st = ChainState::vacant();
        std::mem::swap(self, &mut st);
        proof {
            use_type_invariant(&st);
        }
        let ChainState {
            mut accounts,
            mut pools,
            blocks,
            pending_transactions,
            processing,
            next_block_id,
            submitted,
            rounds,
        } = st;
        let ghost old_accounts = accounts@;
        let mut balances = *accounts.get(&account).unwrap();
        balances.insert(in_token, in_balance);
        balances.insert(out_token, out_balance);
        accounts.insert(account, balances);
        let key = get_pool_key(in_token, out_token);
        match pools.get(key) {
            Some(pool) => {
                let mut pool = pool;
                pool.set_reserve(in_token, in_reserve);
                pool.set_reserve(out_token, out_reserve);
                pools.put(key, pool);
            },
            None => {},
        }
        let ghost before = old_accounts.map_values(|b: TokenMap<A>| b@);
        assert(accounts@.map_values(|b: TokenMap<A>| b@) =~= before.insert(
            account,
            before[account].insert(in_token, in_balance).insert(out_token, out_balance),
        ));
        *self = ChainState {
            accounts,
            pools,
            blocks,
            pending_transactions,
            processing,
            next_block_id,
            submitted,
            rounds,
        };
    }
}

/// Block IDs are unique: no two blocks of a well-formed chain share an ID.
pub proof fn lemma_block_ids_unique<A>(v: ChainView<A>, i: int, j: int)
    requires
        v.well_formed(),
        0 <= i < v.blocks.len(),
        0 <= j < v.blocks.len(),
        i != j,
    ensures
        v.blocks[i].id != v.blocks[j].id,
{
}

/// The chain starts with a pool for every pair of distinct tokens and for no other
/// pair; the pool is found under the pair's key in whichever order the pair is
/// given, and holds the initial reserve of each of the two tokens.
pub proof fn lemma_genesis_pool_for_each_pair<A>(a: Token, b: Token, reserve: A)
    ensures
        genesis_pools(reserve).contains_key(pool_key(a, b)) <==> a != b,
        a != b ==> genesis_pools(reserve)[pool_key(a, b)] == Map::<Token, A>::empty().insert(
            a,
            reserve,
        ).insert(b, reserve),
{
    if a != b {
        assert(genesis_pools(reserve)[pool_key(a, b)] =~= Map::<Token, A>::empty().insert(
            a,
            reserve,
        ).insert(b, reserve));
    }
}

/// A settled send changes no balance but the sender's and the receiver's balance of
/// the sent token, and no account appears or disappears.
pub proof fn lemma_send_changes_only_its_two_balances<A>(
    v: ChainView<A>,
    from: AccountId,
    to: AccountId,
    token: Token,
    debited: A,
    credited: A,
    account: AccountId,
    t: Token,
)
    requires
        from != to,
        v.accounts.contains_key(from),
        v.accounts.contains_key(to),
        v.accounts.contains_key(account),
        !(account == from && t == token),
        !(account == to && t == token),
    ensures
        ({
            let w = after_send(v, from, to, token, debited, credited);
            &&& w.accounts.dom() == v.accounts.dom()
            &&& w.accounts[account].contains_key(t) == v.accounts[account].contains_key(t)
            &&& v.accounts[account].contains_key(t) ==> w.accounts[account][t]
                == v.accounts[account][t]
            &&& w.accounts[from][token] == debited
            &&& w.accounts[to][token] == credited
            &&& w.pools == v.pools
            &&& w.blocks == v.blocks
            &&& w.pending_transactions == v.pending_transactions
        }),
{
    let w = after_send(v, from, to, token, debited, credited);
    assert(w.accounts.dom() =~= v.accounts.dom());
}

/// A settled swap changes no balance but the swapping account's balances of the two
/// tokens, and no reserve but those two reserves of the pool for the pair; no
/// account and no pool appears or disappears.
pub proof fn lemma_swap_changes_only_its_balances_and_pool<A>(
    v: ChainView<A>,
    account: AccountId,
    in_token: Token,
    out_token: Token,
    in_balance: A,
    out_balance: A,
    in_reserve: A,
    out_reserve: A,
    other: AccountId,
    key: (Token, Token),
    t: Token,
)
    requires
        v.accounts.contains_key(account),
        v.pools.contains_key(pool_key(in_token, out_token)),
        v.accounts.contains_key(other),
        v.pools.contains_key(key),
        t != in_token,
        t != out_token,
    ensures
        ({
            let w = after_swap(
                v,
                account,
                in_token,
                out_token,
                in_balance,
                out_balance,
                in_reserve,
                out_reserve,
            );
            &&& w.accounts.dom() == v.accounts.dom()
            &&& w.pools.dom() == v.pools.dom()
            &&& other != account ==> w.accounts[other] == v.accounts[other]
            &&& w.accounts[account].contains_key(t) == v.accounts[account].contains_key(t)
            &&& v.accounts[account].contains_key(t) ==> w.accounts[account][t]
                == v.accounts[account][t]
            &&& w.accounts[account][out_token] == out_balance
            &&& in_token != out_token ==> w.accounts[account][in_token] == in_balance
            &&& key != pool_key(in_token, out_token) ==> w.pools[key] == v.pools[key]
            &&& w.pools[key].contains_key(t) == v.pools[key].contains_key(t)
            &&& v.pools[key].contains_key(t) ==> w.pools[key][t] == v.pools[key][t]
            &&& w.pools[pool_key(in_token, out_token)][out_token] == out_reserve
            &&& in_token != out_token ==> w.pools[pool_key(in_token, out_token)][in_token]
                == in_reserve
            &&& w.blocks == v.blocks
            &&& w.pending_transactions == v.pending_transactions
        }),
{
    let w = after_swap(v, account, in_token, out_token, in_balance, out_balance, in_reserve, out_reserve);
    assert(w.accounts.dom() =~= v.accounts.dom());
    assert(w.pools.dom() =~= v.pools.dom());
}

/// When every transaction of a batch succeeds, the block holds the whole batch, in
/// order.
pub proof fn lemma_accepted_all_when_all_succeed<A>(outcomes: Seq<(Transaction<A>, bool)>)
    requires
        forall|i: int| 0 <= i < outcomes.len() ==> #[trigger] outcomes[i].1,
    ensures
        accepted(outcomes) == outcomes.map_values(|o: (Transaction<A>, bool)| o.0),
    decreases outcomes.len(),
{
    if outcomes.len() > 0 {
        let rest = outcomes.drop_last();
        assert forall|i: int| 0 <= i < rest.len() implies #[trigger] rest[i].1 by {
            assert(rest[i] == outcomes[i]);
        }
        lemma_accepted_all_when_all_succeed(rest);
        assert(outcomes.last().1);
        assert(accepted(outcomes) =~= outcomes.map_values(|o: (Transaction<A>, bool)| o.0));
    }
}

/// When no transaction of a batch succeeds, the block holds no transaction.
pub proof fn lemma_accepted_none_when_all_fail<A>(outcomes: Seq<(Transaction<A>, bool)>)
    requires
        forall|i: int| 0 <= i < outcomes.len() ==> !(#[trigger] outcomes[i].1),
    ensures
        accepted(outcomes) == Seq::<Transaction<A>>::empty(),
    decreases outcomes.len(),
{
    if outcomes.len() > 0 {
        let rest = outcomes.drop_last();
        assert forall|i: int| 0 <= i < rest.len() implies !(#[trigger] rest[i].1) by {
            assert(rest[i] == outcomes[i]);
        }
        lemma_accepted_none_when_all_fail(rest);
        assert(!outcomes.last().1);
    }
}

/// Whether `transaction` is the transaction of a successful outcome of the batch.
pub open spec fn succeeded_in<A>(outcomes: Seq<(Transaction<A>, bool)>, transaction: Transaction<A>) -> bool {
    exists|i: int| 0 <= i < outcomes.len() && (#[trigger] outcomes[i]).1 && outcomes[i].0 == transaction
}

/// A block never holds more transactions than the batch it was made from, and each
/// transaction it holds is the transaction of a successful outcome.
pub proof fn lemma_accepted_only_successes<A>(outcomes: Seq<(Transaction<A>, bool)>)
    ensures
        accepted(outcomes).len() <= outcomes.len(),
        forall|k: int|
            0 <= k < accepted(outcomes).len() ==> succeeded_in(outcomes, #[trigger] accepted(outcomes)[k]),
    decreases outcomes.len(),
{
    if outcomes.len() > 0 {
        let rest = outcomes.drop_last();
        lemma_accepted_only_successes(rest);
        let n = outcomes.len() - 1;
        assert forall|k: int| 0 <= k < accepted(outcomes).len() implies succeeded_in(
            outcomes,
            #[trigger] accepted(outcomes)[k],
        ) by {
            if k < accepted(rest).len() {
                assert(accepted(outcomes)[k] == accepted(rest)[k]);
                assert(succeeded_in(rest, accepted(rest)[k]));
                let i = choose|i: int|
                    0 <= i < rest.len() && (#[trigger] rest[i]).1 && rest[i].0 == accepted(rest)[k];
                assert(rest[i] == outcomes[i]);
            } else {
                assert(outcomes[n].1);
                assert(accepted(outcomes)[k] == outcomes[n].0);
            }
        }
    }
}

/// Every transaction ever submitted is accounted for once, by its position in
/// submission order: it went into the batch of a block, or it is being processed, or
/// it is still pending; none is lost and none is counted twice.
pub proof fn lemma_submission_accounted_once<A>(v: ChainView<A>, k: int)
    requires
        v.well_formed(),
        0 <= k < v.submitted.len(),
    ensures
        ({
            let done = batches_of(v.rounds).len() as int;
            let busy = v.processing.len() as int;
            &&& v.submitted.len() == done + busy + v.pending_transactions.len()
            &&& k < done ==> batches_of(v.rounds)[k] == v.submitted[k]
            &&& done <= k < done + busy ==> v.processing[k - done] == v.submitted[k]
            &&& done + busy <= k ==> v.pending_transactions[k - done - busy] == v.submitted[k]
        }),
{
}

/// Where the batch of block `r` starts among the batches of all blocks.
pub open spec fn round_start<A>(rounds: Seq<Seq<(Transaction<A>, bool)>>, r: int) -> int {
    batches_of(rounds.take(r)).len() as int
}

/// The batches of the first `q` blocks come first among the batches of all blocks,
/// and the batch of block `q` follows them.
pub proof fn lemma_batches_prefix<A>(rounds: Seq<Seq<(Transaction<A>, bool)>>, q: int)
    requires
        0 <= q <= rounds.len(),
    ensures
        round_start(rounds, q) <= batches_of(rounds).len(),
        forall|j: int|
            0 <= j < round_start(rounds, q) ==> #[trigger] batches_of(rounds)[j] == batches_of(
                rounds.take(q),
            )[j],
        q < rounds.len() ==> round_start(rounds, q + 1) == round_start(rounds, q) + rounds[q].len(),
    decreases rounds.len(),
{
    if q < rounds.len() {
        assert(rounds.take(q + 1).drop_last() =~= rounds.take(q));
        assert(rounds.take(q + 1).last() == rounds[q]);
    }
    if q == rounds.len() {
        assert(rounds.take(q) =~= rounds);
    } else {
        let rest = rounds.drop_last();
        lemma_batches_prefix(rest, q);
        assert(rest.take(q) =~= rounds.take(q));
        assert(batches_of(rounds) == batches_of(rest) + round_transactions(rounds.last()));
        assert forall|j: int| 0 <= j < round_start(rounds, q) implies #[trigger] batches_of(
            rounds,
        )[j] == batches_of(rounds.take(q))[j] by {
            assert(batches_of(rounds)[j] == batches_of(rest)[j]);
        }
    }
}

/// Each position among the batches of all blocks lies in the batch of exactly one
/// block, and holds that batch's transaction at the matching place.
pub proof fn lemma_position_in_one_round<A>(rounds: Seq<Seq<(Transaction<A>, bool)>>, k: int) -> (r: int)
    requires
        0 <= k < batches_of(rounds).len(),
    ensures
        0 <= r < rounds.len(),
        round_start(rounds, r) <= k < round_start(rounds, r + 1),
        batches_of(rounds)[k] == rounds[r][k - round_start(rounds, r)].0,
        forall|q: int|
            0 <= q < rounds.len() && round_start(rounds, q) <= k < #[trigger] round_start(
                rounds,
                q + 1,
            ) ==> q == r,
    decreases rounds.len(),
{
    let rest = rounds.drop_last();
    let n = rounds.len() - 1;
    assert(batches_of(rounds) == batches_of(rest) + round_transactions(rounds.last()));
    assert(rounds.take(n) =~= rest);
    assert(rounds.take(n + 1) =~= rounds);
    lemma_batches_prefix(rounds, n);
    let r = if k < batches_of(rest).len() {
        let r = lemma_position_in_one_round(rest, k);
        assert(rest.take(r) =~= rounds.take(r));
        assert(rest.take(r + 1) =~= rounds.take(r + 1));
        lemma_batches_prefix(rounds, r + 1);
        assert(batches_of(rounds)[k] == batches_of(rest)[k]);
        r
    } else {
        n
    };
    assert forall|q: int|
        0 <= q < rounds.len() && round_start(rounds, q) <= k < #[trigger] round_start(
            rounds,
            q + 1,
        ) implies q == r by {
        if q < r {
            lemma_start_monotone(rounds, q + 1, r);
        } else if r < q {
            lemma_start_monotone(rounds, r + 1, q);
        }
    }
    r
}

/// The starts of the blocks' batches do not decrease.
pub proof fn lemma_start_monotone<A>(rounds: Seq<Seq<(Transaction<A>, bool)>>, a: int, b: int)
    requires
        0 <= a <= b <= rounds.len(),
    ensures
        round_start(rounds, a) <= round_start(rounds, b),
    decreases b - a,
{
    if a < b {
        lemma_start_monotone(rounds, a, b - 1);
        lemma_batches_prefix(rounds, b - 1);
    }
}

/// The verdict on a send is read off the sender: it is refused for a send to
/// oneself, then for an unknown sender or receiver, then when the sender has no
/// entry for the token; otherwise it is the sender's balance of the token.
pub proof fn lemma_send_check_reads_sender<A>(v: ChainView<A>, from: AccountId, to: AccountId, token: Token)
    ensures
        send_check(v, from, to, token) == Err::<A, SendRejection>(SendRejection::SameAccount) <==> from == to,
        send_check(v, from, to, token) == Err::<A, SendRejection>(SendRejection::UnknownAccount) <==> from != to && (
        !v.accounts.contains_key(from) || !v.accounts.contains_key(to)),
        send_check(v, from, to, token) == Err::<A, SendRejection>(SendRejection::NoBalance) <==> from != to
            && v.accounts.contains_key(from) && v.accounts.contains_key(to)
            && !v.accounts[from].contains_key(token),
        send_check(v, from, to, token) matches Ok(b) ==> v.accounts.contains_key(from)
            && v.accounts[from].contains_key(token) && b == v.accounts[from][token],
{
}

/// The chain starts with exactly the accounts `0 .. num_accounts`, each holding
/// `amount_per_account` of every token, with no block and nothing queued.
pub proof fn lemma_genesis_accounts<A>(num_accounts: u32, amount_per_account: A, reserve: A)
    ensures
        forall|id: AccountId| #[trigger]
            genesis(num_accounts, amount_per_account, reserve).accounts.contains_key(id) <==> id
                < num_accounts,
        forall|id: AccountId, t: Token|
            id < num_accounts ==> #[trigger] genesis(
                num_accounts,
                amount_per_account,
                reserve,
            ).accounts[id].contains_key(t) && genesis(num_accounts, amount_per_account, reserve).accounts[id][t]
                == amount_per_account,
        genesis(num_accounts, amount_per_account, reserve).blocks.len() == 0,
        genesis(num_accounts, amount_per_account, reserve).pending_transactions.len() == 0,
        genesis(num_accounts, amount_per_account, reserve).next_block_id == 0,
{
}

/// Pairing a batch with its outcomes keeps positions: the `i`-th pair is the
/// `i`-th transaction with the `i`-th outcome.
pub proof fn lemma_outcomes_pair_by_position<A>(batch: Seq<Transaction<A>>, succeeded: Seq<bool>)
    requires
        batch.len() == succeeded.len(),
    ensures
        outcomes_of(batch, succeeded).len() == batch.len(),
        forall|i: int|
            0 <= i < batch.len() ==> #[trigger] outcomes_of(batch, succeeded)[i] == (
                batch[i],
                succeeded[i],
            ),
{
}

/// A block made from no outcome holds no transaction.
pub proof fn lemma_accepted_empty<A>()
    ensures
        accepted(Seq::<(Transaction<A>, bool)>::empty()) == Seq::<Transaction<A>>::empty(),
{
}

/// One more outcome adds its transaction at the end of the block when it
/// succeeded, and nothing otherwise, whatever the earlier outcomes were.
pub proof fn lemma_accepted_push<A>(outcomes: Seq<(Transaction<A>, bool)>, o: (Transaction<A>, bool))
    ensures
        accepted(outcomes.push(o)) == if o.1 {
            accepted(outcomes).push(o.0)
        } else {
            accepted(outcomes)
        },
{
    assert(outcomes.push(o).drop_last() =~= outcomes);
}

/// Every successful outcome's transaction is in the block.
pub proof fn lemma_accepted_keeps_every_success<A>(outcomes: Seq<(Transaction<A>, bool)>, i: int)
    requires
        0 <= i < outcomes.len(),
        outcomes[i].1,
    ensures
        accepted(outcomes).contains(outcomes[i].0),
    decreases outcomes.len(),
{
    let rest = outcomes.drop_last();
    let n = outcomes.len() - 1;
    assert(outcomes =~= rest.push(outcomes[n]));
    lemma_accepted_push(rest, outcomes[n]);
    if i == n {
        assert(accepted(outcomes)[accepted(outcomes).len() - 1] == outcomes[i].0);
    } else {
        assert(rest[i] == outcomes[i]);
        lemma_accepted_keeps_every_success(rest, i);
        let k = choose|k: int| 0 <= k < accepted(rest).len() && accepted(rest)[k] == outcomes[i].0;
        assert(accepted(outcomes)[k] == outcomes[i].0);
    }
}

/// Whether `transaction` is, at some position of `batch`, a transaction whose
/// processing succeeded.
pub open spec fn succeeded_at<A>(batch: Seq<Transaction<A>>, succeeded: Seq<bool>, transaction: Transaction<A>) -> bool {
    exists|j: int| 0 <= j < batch.len() && succeeded[j] && #[trigger] batch[j] == transaction
}

/// The block made from a batch and its outcomes holds the transaction of every
/// success, and only transactions of successes.
pub proof fn lemma_block_keeps_exactly_successes<A>(batch: Seq<Transaction<A>>, succeeded: Seq<bool>)
    requires
        batch.len() == succeeded.len(),
    ensures
        forall|j: int|
            0 <= j < batch.len() && succeeded[j] ==> accepted(outcomes_of(batch, succeeded)).contains(
                #[trigger] batch[j],
            ),
        forall|k: int|
            0 <= k < accepted(outcomes_of(batch, succeeded)).len() ==> succeeded_at(
                batch,
                succeeded,
                #[trigger] accepted(outcomes_of(batch, succeeded))[k],
            ),
{
    let o = outcomes_of(batch, succeeded);
    lemma_outcomes_pair_by_position(batch, succeeded);
    assert forall|j: int| 0 <= j < batch.len() && succeeded[j] implies accepted(o).contains(
        #[trigger] batch[j],
    ) by {
        assert(o[j] == (batch[j], succeeded[j]));
        lemma_accepted_keeps_every_success(o, j);
    }
    lemma_accepted_only_successes(o);
    assert forall|k: int| 0 <= k < accepted(o).len() implies succeeded_at(
        batch,
        succeeded,
        #[trigger] accepted(o)[k],
    ) by {
        assert(succeeded_in(o, accepted(o)[k]));
        let i = choose|i: int| 0 <= i < o.len() && (#[trigger] o[i]).1 && o[i].0 == accepted(o)[k];
        assert(o[i] == (batch[i], succeeded[i]));
    }
}

} // verus!
