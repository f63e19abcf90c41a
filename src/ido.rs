//! The funding-round engine: investor registry, round registry and
//! lifecycle, governance voting, interest admission and settlement.
//!
//! Time advances only through `set_block_number` and `on_initialize`; the
//! callbacks due at a height (round tallies at a round's start block, stake
//! releases at a vote's unlock block) run in `on_initialize`.
use crate::admission::{
    participates, place, placed, placement, total_committed, unique_investors, Participant,
    Placement, MAX_CAPACITY,
};
use crate::ledger::Ledger;
use crate::settlement::{commitment_of, entitlement};
use crate::types::{AccountId, AssetId, Balance, BlockNumber, RoundId, MAX_AMOUNT};
use vstd::prelude::*;

verus! {

/// Largest number of blocks per step of the vote-lock schedule.
pub const MAX_LOCK_UNIT: u64 = 0xffff_ffff;

/// Know-your-customer tier of an investor.
#[derive(Clone, Copy, Debug, PartialEq, Eq, Structural)]
pub enum KycStatus {
    Tier0,
    Tier1,
    Tier2,
}

/// A registered investor.
#[derive(Clone, Copy, Debug, PartialEq, Eq, Structural)]
pub struct Investor {
    pub account: AccountId,
    pub kyc: KycStatus,
}

/// What a `NotFound` error did not find.
#[derive(Clone, Copy, Debug, PartialEq, Eq, Structural)]
pub enum Missing {
    Investor,
    Round,
}

/// Why an operation was refused. A refused operation changes nothing.
#[derive(Clone, Copy, Debug, PartialEq, Eq, Structural)]
pub enum IdoError {
    /// An investor or round is absent.
    NotFound(Missing),
    /// Duplicate registration, a second active round, or a repeated withdrawal.
    AlreadyExists,
    /// An amount or parameter outside its allowed range.
    InvalidInput,
    /// The caller may not perform the operation.
    Unauthorized,
    /// The operation is outside its block-height window.
    WindowViolation,
    /// The ledger could not reserve the funds.
    InsufficientFunds,
}

/// Engine-wide parameters.
#[derive(Clone, Copy, Debug, PartialEq, Eq, Structural)]
pub struct IdoConfig {
    /// The account allowed to force-approve rounds.
    pub admin: AccountId,
    /// The asset locked by votes.
    pub governance_asset: AssetId,
    /// Blocks between a round's registration and its start (the voting period).
    pub voting_period: BlockNumber,
    /// Blocks of vote lock per step of the vote multiplier.
    pub vote_lock_unit: BlockNumber,
    /// Participant slots of each round registered from now on.
    pub participant_capacity: u64,
    /// Blocks over which purchased tokens vest after a round closes.
    pub vesting_window: BlockNumber,
}

impl IdoConfig {
    pub open spec fn valid(&self) -> bool {
        &&& 2 <= self.participant_capacity <= MAX_CAPACITY
        &&& 1 <= self.vote_lock_unit <= MAX_LOCK_UNIT
        &&& 1 <= self.vesting_window
    }
}

/// Lifecycle state of a stored round. A rejected round is deleted; a round
/// is closed once the current block reaches its close block.
#[derive(Clone, Copy, Debug, PartialEq, Eq, Structural)]
pub enum RoundStatus {
    Draft,
    Approved,
}

/// The terms of a funding round.
#[derive(Debug)]
pub struct FundingRound {
    pub creator: AccountId,
    pub metadata: Vec<u8>,
    pub raising_asset: AssetId,
    pub raising_amount: Balance,
    pub selling_asset: AssetId,
    pub selling_amount: Balance,
    pub min_allocation: Balance,
    pub max_allocation: Balance,
    pub start_block: BlockNumber,
    pub close_block: BlockNumber,
    pub voting_multiplier: u8,
    pub capacity: u64,
}

/// Vesting progress of one investor in one round.
#[derive(Clone, Copy, Debug, PartialEq, Eq, Structural)]
pub struct ClaimState {
    pub investor: AccountId,
    pub last_claim_block: BlockNumber,
    pub claimed: Balance,
}

/// A stored round with its votes tally, participants and settlement state.
#[derive(Debug)]
pub struct RoundRecord {
    pub id: RoundId,
    pub round: FundingRound,
    pub status: RoundStatus,
    pub yes_weight: Balance,
    pub no_weight: Balance,
    pub participants: Vec<Participant>,
    pub claims: Vec<ClaimState>,
    pub raise_withdrawn: bool,
    pub token_withdrawn: bool,
}

/// A governance vote with its locked stake.
#[derive(Clone, Copy, Debug, PartialEq, Eq, Structural)]
pub struct Vote {
    pub voter: AccountId,
    pub round_id: RoundId,
    pub amount: Balance,
    pub multiplier: u8,
    pub in_favor: bool,
    pub unlock_block: BlockNumber,
}

impl RoundRecord {
    /// The round's invariant at block `now`: its own, and every claim
    /// record belongs to a participant of a closed approved round and has
    /// claimed at most the participant's entitlement.
    pub open spec fn wf_at(&self, now: BlockNumber) -> bool {
        let s = self.participants@;
        &&& self.wf()
        &&& self.claims@.len() > 0 ==> self.status == RoundStatus::Approved && self.round.close_block <= now
        &&& forall|c: int|
            0 <= c < self.claims@.len() ==> participates(s, #[trigger] self.claims@[c].investor)
                && self.claims@[c].claimed <= entitlement(
                commitment_of(s, self.claims@[c].investor),
                self.round.selling_amount,
                total_committed(s),
            )
    }

    /// The round's own invariant.
    pub open spec fn wf(&self) -> bool {
        let r = self.round;
        &&& 2 <= r.capacity <= MAX_CAPACITY
        &&& 1 <= r.min_allocation <= r.max_allocation <= MAX_AMOUNT
        &&& r.selling_amount <= MAX_AMOUNT
        &&& r.start_block < r.close_block
        &&& self.participants@.len() <= r.capacity
        &&& unique_investors(self.participants@)
        &&& forall|i: int|
            0 <= i < self.participants@.len() ==> r.min_allocation
                <= #[trigger] self.participants@[i].amount <= r.max_allocation
        &&& forall|i: int, j: int|
            0 <= i < self.claims@.len() && 0 <= j < self.claims@.len() && i != j
                ==> #[trigger] self.claims@[i].investor != #[trigger] self.claims@[j].investor
    }
}

/// The engine's stores.
pub struct Ido {
    pub config: IdoConfig,
    pub now: BlockNumber,
    pub investors: Vec<Investor>,
    pub rounds: Vec<RoundRecord>,
    pub votes: Vec<Vote>,
    pub next_round_id: RoundId,
}

/// Saturating addition of block numbers.
pub open spec fn sat_add(a: BlockNumber, b: int) -> BlockNumber {
    if a + b > u64::MAX {
        u64::MAX
    } else {
        (a + b) as u64
    }
}

/// Block at which a vote cast at `now` with `multiplier` unlocks: a larger
/// multiplier locks longer.
pub open spec fn unlock_at(now: BlockNumber, unit: BlockNumber, multiplier: u8) -> BlockNumber {
    sat_add(now, (multiplier + 1) * unit)
}

/// The terms of a new round are acceptable at block `now`.
pub open spec fn terms_valid(
    now: BlockNumber,
    voting_period: BlockNumber,
    duration: BlockNumber,
    selling_amount: Balance,
    min_allocation: Balance,
    max_allocation: Balance,
) -> bool {
    &&& 1 <= duration
    &&& 1 <= min_allocation <= max_allocation <= MAX_AMOUNT
    &&& selling_amount <= MAX_AMOUNT
    &&& now + voting_period + duration <= u64::MAX
}

impl Ido {
    pub open spec fn wf(&self) -> bool {
        &&& self.config.valid()
        &&& forall|i: int, j: int|
            0 <= i < self.investors@.len() && 0 <= j < self.investors@.len() && i != j
                ==> #[trigger] self.investors@[i].account != #[trigger] self.investors@[j].account
        &&& forall|i: int, j: int|
            0 <= i < self.rounds@.len() && 0 <= j < self.rounds@.len() && i != j
                ==> #[trigger] self.rounds@[i].id != #[trigger] self.rounds@[j].id
        &&& forall|i: int|
            0 <= i < self.rounds@.len() ==> #[trigger] self.rounds@[i].id < self.next_round_id
                && self.rounds@[i].wf_at(self.now)
    }

    /// `who` is a registered investor.
    pub open spec fn registered(&self, who: AccountId) -> bool {
        exists|i: int| 0 <= i < self.investors@.len() && #[trigger] self.investors@[i].account == who
    }

    /// The investor record of `who`.
    pub open spec fn investor(&self, who: AccountId) -> Investor {
        self.investors@[choose|i: int| 0 <= i < self.investors@.len() && #[trigger] self.investors@[i].account == who]
    }

    /// A round with identifier `id` is stored, in state `status`.
    pub open spec fn has_round(&self, id: RoundId, status: RoundStatus) -> bool {
        exists|i: int|
            0 <= i < self.rounds@.len() && #[trigger] self.rounds@[i].id == id
                && self.rounds@[i].status == status
    }

    /// Position of round `id` in the store.
    pub open spec fn index_of(&self, id: RoundId) -> int {
        choose|i: int| 0 <= i < self.rounds@.len() && #[trigger] self.rounds@[i].id == id
    }

    /// The stored round `id`.
    pub open spec fn record(&self, id: RoundId) -> RoundRecord {
        self.rounds@[self.index_of(id)]
    }

    /// `creator` owns a round that is a draft or an approved round not yet closed.
    pub open spec fn has_active_round(&self, creator: AccountId) -> bool {
        exists|i: int|
            0 <= i < self.rounds@.len() && #[trigger] self.rounds@[i].round.creator == creator
                && (self.rounds@[i].status == RoundStatus::Draft || self.now
                < self.rounds@[i].round.close_block)
    }

    /// The stores other than the rounds are as in `other`.
    pub open spec fn same_except_rounds(&self, other: &Ido) -> bool {
        &&& self.config == other.config
        &&& self.now == other.now
        &&& self.investors@ == other.investors@
        &&& self.votes@ == other.votes@
        &&& self.next_round_id == other.next_round_id
    }

    /// `r` is the draft that `register_round` stores for these terms.
    pub open spec fn is_fresh_round(
        &self,
        r: RoundRecord,
        creator: AccountId,
        metadata: Seq<u8>,
        raising_asset: AssetId,
        raising_amount: Balance,
        selling_asset: AssetId,
        selling_amount: Balance,
        duration: BlockNumber,
        min_allocation: Balance,
        max_allocation: Balance,
        voting_multiplier: u8,
    ) -> bool {
        &&& r.id == self.next_round_id
        &&& r.status == RoundStatus::Draft
        &&& r.round.creator == creator
        &&& r.round.metadata@ == metadata
        &&& r.round.raising_asset == raising_asset
        &&& r.round.raising_amount == raising_amount
        &&& r.round.selling_asset == selling_asset
        &&& r.round.selling_amount == selling_amount
        &&& r.round.min_allocation == min_allocation
        &&& r.round.max_allocation == max_allocation
        &&& r.round.start_block == self.now + self.config.voting_period
        &&& r.round.close_block == r.round.start_block + duration
        &&& r.round.voting_multiplier == voting_multiplier
        &&& r.round.capacity == self.config.participant_capacity
        &&& r.yes_weight == 0 && r.no_weight == 0
        &&& r.participants@.len() == 0 && r.claims@.len() == 0
        &&& !r.raise_withdrawn && !r.token_withdrawn
    }

    /// A fresh engine at block zero with empty stores.
    pub fn new(config: IdoConfig) -> (r: Result<Ido, IdoError>)
        ensures
            r is Err <==> !config.valid(),
            r is Err ==> r == Err::<Ido, IdoError>(IdoError::InvalidInput),
            r matches Ok(ido) ==> {
                &&& ido.wf()
                &&& ido.config == config
                &&& ido.now == 0
                &&& ido.investors@.len() == 0
                &&& ido.rounds@.len() == 0
                &&& ido.votes@.len() == 0
                &&& ido.next_round_id == 0
            },
    {
        if config.participant_capacity < 2 || config.participant_capacity > MAX_CAPACITY
            || config.vote_lock_unit < 1 || config.vote_lock_unit > MAX_LOCK_UNIT
            || config.vesting_window < 1 {
            return Err(IdoError::InvalidInput);
        }
        Ok(Ido {
            config,
            now: 0,
            investors: Vec::new(),
            rounds: Vec::new(),
            votes: Vec::new(),
            next_round_id: 0,
        })
    }

    /// Moves the current block forward to `n`; an earlier `n` leaves it as it is.
    pub fn set_block_number(&mut self, n: BlockNumber)
        requires
            old(self).wf(),
        ensures
            final(self).wf(),
            final(self).now == if n > old(self).now {
                n
            } else {
                old(self).now
            },
            final(self).config == old(self).config,
            final(self).investors@ == old(self).investors@,
            final(self).rounds@ == old(self).rounds@,
            final(self).votes@ == old(self).votes@,
            final(self).next_round_id == old(self).next_round_id,
    {
        if n > self.now {
            self.now = n;
            assert forall|i: int| 0 <= i < self.rounds@.len() implies #[trigger] self.rounds@[i].id
                < self.next_round_id && self.rounds@[i].wf_at(self.now) by {
                assert(old(self).rounds@[i].id < self.next_round_id && old(self).rounds@[i].wf_at(old(self).now));
            }
        }
    }

    pub(crate) fn find_investor(&self, who: AccountId) -> (r: Option<usize>)
        ensures
            r matches Some(i) ==> i < self.investors@.len() && self.investors@[i as int].account == who,
            r is None <==> !self.registered(who),
    {
        let mut i: usize = 0;
        while i < self.investors.len()
            invariant
                i <= self.investors@.len(),
                forall|j: int| 0 <= j < i ==> #[trigger] self.investors@[j].account != who,
            decreases self.investors@.len() - i,
        {
            if self.investors[i].account == who {
                return Some(i);
            }
            i = i + 1;
        }
        None
    }

    pub(crate) fn find_round(&self, id: RoundId) -> (r: Option<usize>)
        requires
            self.wf(),
        ensures
            r matches Some(i) ==> i < self.rounds@.len() && self.rounds@[i as int].id == id
                && i == self.index_of(id),
            r is None ==> forall|i: int| 0 <= i < self.rounds@.len() ==> #[trigger] self.rounds@[i].id != id,
            r is None ==> !self.has_round(id, RoundStatus::Draft) && !self.has_round(id, RoundStatus::Approved),
    {
        let mut i: usize = 0;
        while i < self.rounds.len()
            invariant
                self.wf(),
                i <= self.rounds@.len(),
                forall|j: int| 0 <= j < i ==> #[trigger] self.rounds@[j].id != id,
            decreases self.rounds@.len() - i,
        {
            if self.rounds[i].id == id {
                proof {
                    let k = self.index_of(id);
                    assert(0 <= i < self.rounds@.len() && self.rounds@[i as int].id == id);
                    if k != i {
                        assert(self.rounds@[k].id != self.rounds@[i as int].id);
                    }
                }
                return Some(i);
            }
            i = i + 1;
        }
        None
    }

    /// Finds round `id` in state `status`.
    pub(crate) fn find_round_in(&self, id: RoundId, status: RoundStatus) -> (r: Option<usize>)
        requires
            self.wf(),
        ensures
            r matches Some(i) ==> i < self.rounds@.len() && self.rounds@[i as int].id == id
                && i == self.index_of(id) && self.rounds@[i as int].status == status,
            r is None <==> !self.has_round(id, status),
    {
        match self.find_round(id) {
            Some(i) => {
                if self.rounds[i].status == status {
                    Some(i)
                } else {
                    proof {
                        if self.has_round(id, status) {
                            let k = choose|k: int|
                                0 <= k < self.rounds@.len() && #[trigger] self.rounds@[k].id == id
                                    && self.rounds@[k].status == status;
                            assert(self.rounds@[k].id == self.rounds@[i as int].id);
                        }
                    }
                    None
                }
            },
            None => None,
        }
    }

    /// Registers `who` as an investor at tier zero.
    pub fn register_investor(&mut self, who: AccountId) -> (r: Result<(), IdoError>)
        requires
            old(self).wf(),
        ensures
            final(self).wf(),
            r is Err <==> old(self).registered(who),
            r is Err ==> r == Err::<(), IdoError>(IdoError::AlreadyExists) && *final(self) == *old(self),
            r is Ok ==> final(self).investors@ == old(self).investors@.push(
                (Investor { account: who, kyc: KycStatus::Tier0 }),
            ),
            final(self).registered(who),
            final(self).config == old(self).config,
            final(self).now == old(self).now,
            final(self).rounds@ == old(self).rounds@,
            final(self).votes@ == old(self).votes@,
            final(self).next_round_id == old(self).next_round_id,
    {
        if self.find_investor(who).is_some() {
            return Err(IdoError::AlreadyExists);
        }
        let ghost old_inv = self.investors@;
        self.investors.push(Investor { account: who, kyc: KycStatus::Tier0 });
        proof {
            assert(self.investors@[old_inv.len() as int].account == who);
        }
        Ok(())
    }

    /// Sets the KYC tier of the registered investor `who`.
    pub fn attest_investor(&mut self, who: AccountId, kyc: KycStatus) -> (r: Result<(), IdoError>)
        requires
            old(self).wf(),
        ensures
            final(self).wf(),
            r is Err <==> !old(self).registered(who),
            r is Err ==> r == Err::<(), IdoError>(IdoError::NotFound(Missing::Investor)) && *final(self) == *old(self),
            r is Ok ==> final(self).registered(who) && final(self).investor(who) == (Investor { account: who, kyc }),
            r is Ok ==> forall|w: AccountId| w != who ==> (#[trigger] final(self).registered(w) == old(self).registered(w)),
            final(self).investors@.len() == old(self).investors@.len(),
            final(self).config == old(self).config,
            final(self).now == old(self).now,
            final(self).rounds@ == old(self).rounds@,
            final(self).votes@ == old(self).votes@,
            final(self).next_round_id == old(self).next_round_id,
    {
        match self.find_investor(who) {
            None => Err(IdoError::NotFound(Missing::Investor)),
            Some(i) => {
                let ghost old_inv = self.investors@;
                self.investors.set(i, Investor { account: who, kyc });
                proof {
                    assert(self.investors@[i as int].account == who);
                    let k = choose|k: int| 0 <= k < self.investors@.len() && #[trigger] self.investors@[k].account == who;
                    if k != i {
                        assert(old_inv[k].account != old_inv[i as int].account);
                    }
                    assert forall|w: AccountId| w != who implies (#[trigger] self.registered(w) == old(self).registered(w)) by {
                        if old(self).registered(w) {
                            let j = choose|j: int| 0 <= j < old_inv.len() && #[trigger] old_inv[j].account == w;
                            assert(self.investors@[j].account == w);
                        }
                        if self.registered(w) {
                            let j = choose|j: int| 0 <= j < self.investors@.len() && #[trigger] self.investors@[j].account == w;
                            assert(old_inv[j].account == w);
                        }
                    }
                }
                Ok(())
            },
        }
    }
}

/// The round record after a vote of `amount` on the side `in_favor`.
pub open spec fn with_vote(rec: RoundRecord, amount: Balance, in_favor: bool) -> RoundRecord {
    if in_favor {
        RoundRecord { yes_weight: (rec.yes_weight + amount) as u128, ..rec }
    } else {
        RoundRecord { no_weight: (rec.no_weight + amount) as u128, ..rec }
    }
}

/// The side's tally can take another `amount`.
pub open spec fn tally_fits(rec: RoundRecord, amount: Balance, in_favor: bool) -> bool {
    if in_favor {
        rec.yes_weight + amount <= u128::MAX
    } else {
        rec.no_weight + amount <= u128::MAX
    }
}

/// A tally approves a round exactly when the stake in favour strictly
/// exceeds the stake against; a tie or no votes rejects it.
pub open spec fn approves(rec: RoundRecord) -> bool {
    rec.yes_weight > rec.no_weight
}

/// The round is a draft whose start block has been reached.
pub open spec fn tally_due(rec: RoundRecord, now: BlockNumber) -> bool {
    rec.status == RoundStatus::Draft && rec.round.start_block <= now
}

/// The rounds store after every due draft is tallied: approved drafts
/// become approved rounds in place, rejected ones are deleted.
pub open spec fn tallied(s: Seq<RoundRecord>, now: BlockNumber) -> Seq<RoundRecord>
    decreases s.len(),
{
    if s.len() == 0 {
        Seq::empty()
    } else {
        let t = tallied(s.drop_last(), now);
        let r = s.last();
        if tally_due(r, now) {
            if approves(r) {
                t.push(RoundRecord { status: RoundStatus::Approved, ..r })
            } else {
                t
            }
        } else {
            t.push(r)
        }
    }
}

/// The votes of `s` whose unlock block is reached at `now` (when `due`),
/// or not yet reached (otherwise), in order.
pub open spec fn votes_due(s: Seq<Vote>, now: BlockNumber, due: bool) -> Seq<Vote>
    decreases s.len(),
{
    if s.len() == 0 {
        Seq::empty()
    } else {
        let t = votes_due(s.drop_last(), now, due);
        if (s.last().unlock_block <= now) == due {
            t.push(s.last())
        } else {
            t
        }
    }
}

/// Total stake that `who` locked in the votes of `s`.
pub open spec fn stake_of(s: Seq<Vote>, who: AccountId) -> nat
    decreases s.len(),
{
    if s.len() == 0 {
        0
    } else {
        stake_of(s.drop_last(), who) + if s.last().voter == who {
            s.last().amount as nat
        } else {
            0nat
        }
    }
}

/// `x - y`, or zero when `y` exceeds `x`.
pub open spec fn sat_sub(x: int, y: int) -> int {
    if x >= y {
        x - y
    } else {
        0
    }
}

/// `after` is `before` with the stake `released` returned from reserved
/// to free balance in `asset`, as far as each account holds it reserved;
/// other assets are untouched.
pub open spec fn stake_returned(before: Ledger, after: Ledger, asset: AssetId, released: Seq<Vote>) -> bool {
    &&& forall|a: AssetId, w: AccountId| a != asset ==> #[trigger] after.balance(a, w) == before.balance(a, w)
    &&& forall|w: AccountId| #[trigger] after.reserved(asset, w) == sat_sub(before.reserved(asset, w), stake_of(released, w) as int)
    &&& forall|w: AccountId| #[trigger] after.free(asset, w) == before.free(asset, w) + (before.reserved(asset, w) - after.reserved(asset, w))
}

pub(crate) proof fn lemma_update_keeps_wf(before: &Ido, after: &Ido, i: int, rec: RoundRecord)
    requires
        before.wf(),
        0 <= i < before.rounds@.len(),
        after.rounds@ == before.rounds@.update(i, rec),
        rec.id == before.rounds@[i].id,
        rec.wf_at(before.now),
        after.same_except_rounds(before),
    ensures
        after.wf(),
{
    assert forall|a: int, b: int|
        0 <= a < after.rounds@.len() && 0 <= b < after.rounds@.len() && a != b
            implies #[trigger] after.rounds@[a].id != #[trigger] after.rounds@[b].id by {
        assert(before.rounds@[a].id != before.rounds@[b].id);
    }
    assert forall|a: int| 0 <= a < after.rounds@.len() implies #[trigger] after.rounds@[a].id
        < after.next_round_id && after.rounds@[a].wf_at(after.now) by {
        assert(before.rounds@[a].id < before.next_round_id && before.rounds@[a].wf_at(before.now));
    }
}

impl Ido {
    fn creator_has_active_round(&self, creator: AccountId) -> (r: bool)
        ensures
            r == self.has_active_round(creator),
    {
        let mut i: usize = 0;
        while i < self.rounds.len()
            invariant
                i <= self.rounds@.len(),
                forall|j: int|
                    0 <= j < i ==> !(#[trigger] self.rounds@[j].round.creator == creator && (
                    self.rounds@[j].status == RoundStatus::Draft || self.now
                        < self.rounds@[j].round.close_block)),
            decreases self.rounds@.len() - i,
        {
            let r = &self.rounds[i];
            if r.round.creator == creator && (r.status == RoundStatus::Draft || self.now
                < r.round.close_block) {
                return true;
            }
            i = i + 1;
        }
        false
    }

    /// Registers a draft round of `creator` that opens after the voting
    /// period and stays open for `duration` blocks; escrows the tokens for
    /// sale. Returns the new round's identifier.
    pub fn register_round(
        &mut self,
        ledger: &mut Ledger,
        creator: AccountId,
        metadata: Vec<u8>,
        raising_asset: AssetId,
        raising_amount: Balance,
        selling_asset: AssetId,
        selling_amount: Balance,
        duration: BlockNumber,
        min_allocation: Balance,
        max_allocation: Balance,
        voting_multiplier: u8,
    ) -> (r: Result<RoundId, IdoError>)
        requires
            old(self).wf(),
            old(ledger).wf(),
        ensures
            final(self).wf(),
            final(ledger).wf(),
            old(self).has_active_round(creator) ==> r == Err::<RoundId, IdoError>(IdoError::AlreadyExists),
            !old(self).has_active_round(creator) && !(terms_valid(old(self).now, old(self).config.voting_period, duration, selling_amount, min_allocation, max_allocation) && old(self).next_round_id < u64::MAX)
                ==> r == Err::<RoundId, IdoError>(IdoError::InvalidInput),
            !old(self).has_active_round(creator) && terms_valid(old(self).now, old(self).config.voting_period, duration, selling_amount, min_allocation, max_allocation)
                && old(self).next_round_id < u64::MAX && old(ledger).free(selling_asset, creator) < selling_amount
                ==> r == Err::<RoundId, IdoError>(IdoError::InsufficientFunds),
            r is Err ==> *final(self) == *old(self) && *final(ledger) == *old(ledger),
            r is Ok <==> !old(self).has_active_round(creator) && terms_valid(old(self).now, old(self).config.voting_period, duration, selling_amount, min_allocation, max_allocation)
                && old(self).next_round_id < u64::MAX && old(ledger).free(selling_asset, creator) >= selling_amount,
            r matches Ok(id) ==> {
                &&& id == old(self).next_round_id
                &&& final(self).next_round_id == id + 1
                &&& final(self).rounds@.drop_last() == old(self).rounds@
                &&& final(self).rounds@.len() == old(self).rounds@.len() + 1
                &&& old(self).is_fresh_round(final(self).rounds@.last(), creator, metadata@, raising_asset, raising_amount, selling_asset, selling_amount, duration, min_allocation, max_allocation, voting_multiplier)
                &&& final(self).config == old(self).config
                &&& final(self).now == old(self).now
                &&& final(self).investors@ == old(self).investors@
                &&& final(self).votes@ == old(self).votes@
                &&& final(ledger).holds(selling_asset, creator, old(ledger).free(selling_asset, creator) - selling_amount, old(ledger).reserved(selling_asset, creator) + selling_amount)
                &&& final(ledger).agrees_except(&*old(ledger), selling_asset, creator)
            },
    {
        if self.creator_has_active_round(creator) {
            return Err(IdoError::AlreadyExists);
        }
        if duration == 0 || min_allocation == 0 || min_allocation > max_allocation
            || max_allocation > MAX_AMOUNT || selling_amount > MAX_AMOUNT || self.next_round_id
            == u64::MAX || self.now > u64::MAX - self.config.voting_period {
            return Err(IdoError::InvalidInput);
        }
        let start_block = self.now + self.config.voting_period;
        if start_block > u64::MAX - duration {
            return Err(IdoError::InvalidInput);
        }
        let close_block = start_block + duration;
        if ledger.reserve(selling_asset, creator, selling_amount).is_err() {
            return Err(IdoError::InsufficientFunds);
        }
        let id = self.next_round_id;
        let rec = RoundRecord {
            id,
            round: FundingRound {
                creator,
                metadata,
                raising_asset,
                raising_amount,
                selling_asset,
                selling_amount,
                min_allocation,
                max_allocation,
                start_block,
                close_block,
                voting_multiplier,
                capacity: self.config.participant_capacity,
            },
            status: RoundStatus::Draft,
            yes_weight: 0,
            no_weight: 0,
            participants: Vec::new(),
            claims: Vec::new(),
            raise_withdrawn: false,
            token_withdrawn: false,
        };
        let ghost s = self.rounds@;
        self.rounds.push(rec);
        self.next_round_id = id + 1;
        proof {
            assert(self.rounds@.drop_last() =~= s);
            assert forall|i: int, j: int|
                0 <= i < self.rounds@.len() && 0 <= j < self.rounds@.len() && i != j
                    implies #[trigger] self.rounds@[i].id != #[trigger] self.rounds@[j].id by {
                if i < s.len() && j < s.len() {
                    assert(s[i].id != s[j].id);
                } else if i < s.len() {
                    assert(s[i].id < id);
                } else {
                    assert(s[j].id < id);
                }
            }
            assert forall|i: int| 0 <= i < self.rounds@.len() implies #[trigger] self.rounds@[i].id
                < self.next_round_id && self.rounds@[i].wf_at(self.now) by {
                if i < s.len() {
                    assert(s[i].id < id && s[i].wf_at(self.now));
                }
            }
        }
        Ok(id)
    }

    /// Force-promotes the draft round `id` to approved; only the admin may.
    pub fn approve_ido_round(&mut self, caller: AccountId, id: RoundId) -> (r: Result<(), IdoError>)
        requires
            old(self).wf(),
        ensures
            final(self).wf(),
            caller != old(self).config.admin ==> r == Err::<(), IdoError>(IdoError::Unauthorized),
            caller == old(self).config.admin && !old(self).has_round(id, RoundStatus::Draft)
                ==> r == Err::<(), IdoError>(IdoError::NotFound(Missing::Round)),
            r is Err ==> *final(self) == *old(self),
            r is Ok <==> caller == old(self).config.admin && old(self).has_round(id, RoundStatus::Draft),
            r is Ok ==> final(self).rounds@ == old(self).rounds@.update(old(self).index_of(id),
                (RoundRecord { status: RoundStatus::Approved, ..old(self).record(id) })),
            final(self).same_except_rounds(&*old(self)),
    {
        if caller != self.config.admin {
            return Err(IdoError::Unauthorized);
        }
        match self.find_round_in(id, RoundStatus::Draft) {
            None => Err(IdoError::NotFound(Missing::Round)),
            Some(i) => {
                let ghost before = *self;
                let mut rec = self.rounds.remove(i);
                rec.status = RoundStatus::Approved;
                self.rounds.insert(i, rec);
                proof {
                    assert(self.rounds@ =~= before.rounds@.update(i as int, rec));
                    lemma_update_keeps_wf(&before, &*self, i as int, rec);
                }
                Ok(())
            },
        }
    }
}

impl Ido {
    /// The block at which a vote cast now with `multiplier` unlocks.
    pub fn vote_multiplier_to_block_number(&self, multiplier: u8) -> (r: BlockNumber)
        requires
            self.wf(),
        ensures
            r == unlock_at(self.now, self.config.vote_lock_unit, multiplier),
    {
        let unit = self.config.vote_lock_unit;
        let steps: u64 = multiplier as u64 + 1;
        assert(steps * unit <= 256 * MAX_LOCK_UNIT) by (nonlinear_arith)
            requires
                steps <= 256,
                unit <= MAX_LOCK_UNIT,
        ;
        self.now.saturating_add(steps * unit)
    }

    /// Casts a vote on the draft round `id`, locking `amount` of the
    /// governance asset from the voter's free balance until the unlock
    /// block that `multiplier` gives.
    pub fn vote(
        &mut self,
        ledger: &mut Ledger,
        voter: AccountId,
        id: RoundId,
        amount: Balance,
        multiplier: u8,
        in_favor: bool,
    ) -> (r: Result<(), IdoError>)
        requires
            old(self).wf(),
            old(ledger).wf(),
        ensures
            final(self).wf(),
            final(ledger).wf(),
            !old(self).has_round(id, RoundStatus::Draft) ==> r == Err::<(), IdoError>(IdoError::NotFound(Missing::Round)),
            old(self).has_round(id, RoundStatus::Draft) && !tally_fits(old(self).record(id), amount, in_favor)
                ==> r == Err::<(), IdoError>(IdoError::InvalidInput),
            old(self).has_round(id, RoundStatus::Draft) && tally_fits(old(self).record(id), amount, in_favor)
                && old(ledger).free(old(self).config.governance_asset, voter) < amount
                ==> r == Err::<(), IdoError>(IdoError::InsufficientFunds),
            r is Err ==> *final(self) == *old(self) && *final(ledger) == *old(ledger),
            r is Ok <==> old(self).has_round(id, RoundStatus::Draft) && tally_fits(old(self).record(id), amount, in_favor)
                && old(ledger).free(old(self).config.governance_asset, voter) >= amount,
            r is Ok ==> {
                let gov = old(self).config.governance_asset;
                &&& final(self).votes@ == old(self).votes@.push(
                    (Vote { voter, round_id: id, amount, multiplier, in_favor, unlock_block: unlock_at(old(self).now, old(self).config.vote_lock_unit, multiplier) }),
                )
                &&& final(self).rounds@ == old(self).rounds@.update(old(self).index_of(id), with_vote(old(self).record(id), amount, in_favor))
                &&& final(self).config == old(self).config
                &&& final(self).now == old(self).now
                &&& final(self).investors@ == old(self).investors@
                &&& final(self).next_round_id == old(self).next_round_id
                &&& final(ledger).holds(gov, voter, old(ledger).free(gov, voter) - amount, old(ledger).reserved(gov, voter) + amount)
                &&& final(ledger).agrees_except(&*old(ledger), gov, voter)
            },
    {
        let i = match self.find_round_in(id, RoundStatus::Draft) {
            None => return Err(IdoError::NotFound(Missing::Round)),
            Some(i) => i,
        };
        let fits = if in_favor {
            amount <= u128::MAX - self.rounds[i].yes_weight
        } else {
            amount <= u128::MAX - self.rounds[i].no_weight
        };
        if !fits {
            return Err(IdoError::InvalidInput);
        }
        let gov = self.config.governance_asset;
        if ledger.reserve(gov, voter, amount).is_err() {
            return Err(IdoError::InsufficientFunds);
        }
        let unlock_block = self.vote_multiplier_to_block_number(multiplier);
        let mut rec = self.rounds.remove(i);
        if in_favor {
            rec.yes_weight = rec.yes_weight + amount;
        } else {
            rec.no_weight = rec.no_weight + amount;
        }
        self.rounds.insert(i, rec);
        proof {
            assert(self.rounds@ =~= old(self).rounds@.update(i as int, with_vote(old(self).record(id), amount, in_favor)));
            lemma_update_keeps_wf(&*old(self), &*self, i as int, with_vote(old(self).record(id), amount, in_favor));
        }
        self.votes.push(Vote { voter, round_id: id, amount, multiplier, in_favor, unlock_block });
        Ok(())
    }

    /// Tallies every draft whose start block has been reached: a strict
    /// majority of locked stake in favour approves it, anything else
    /// deletes it. A tallied round is no longer a draft, so no round is
    /// tallied twice.
    pub fn tally_due_rounds(&mut self)
        requires
            old(self).wf(),
        ensures
            final(self).wf(),
            final(self).rounds@ == tallied(old(self).rounds@, old(self).now),
            final(self).same_except_rounds(&*old(self)),
    {
        let ghost s = self.rounds@;
        let n = self.rounds.len();
        let now = self.now;
        let mut i: usize = 0;
        let mut j: usize = 0;
        assert(s.subrange(0, 0) =~= Seq::<RoundRecord>::empty());
        assert(s.subrange(0, n as int) =~= s);
        assert(self.rounds@ =~= tallied(s.subrange(0, 0), now) + s.subrange(0, n as int));
        while j < self.rounds.len()
            invariant
                self.wf(),
                self.same_except_rounds(&*old(self)),
                now == self.now,
                i <= n,
                n == s.len(),
                j == tallied(s.subrange(0, i as int), now).len(),
                self.rounds@ == tallied(s.subrange(0, i as int), now) + s.subrange(i as int, n as int),
            decreases self.rounds@.len() - j,
        {
            let ghost t = tallied(s.subrange(0, i as int), now);
            proof {
                assert(self.rounds@.len() == t.len() + (n - i));
                assert(s.subrange(0, i + 1).drop_last() =~= s.subrange(0, i as int));
                assert(self.rounds@[j as int] == s[i as int]);
                assert(s.subrange(i as int, n as int).drop_first() =~= s.subrange(i + 1, n as int));
            }
            let due = self.rounds[j].status == RoundStatus::Draft && self.rounds[j].round.start_block <= now;
            if due {
                if self.rounds[j].yes_weight > self.rounds[j].no_weight {
                    let ghost before = *self;
                    let mut rec = self.rounds.remove(j);
                    rec.status = RoundStatus::Approved;
                    self.rounds.insert(j, rec);
                    proof {
                        assert(self.rounds@ =~= before.rounds@.update(j as int, rec));
                        lemma_update_keeps_wf(&before, &*self, j as int, rec);
                        assert(self.rounds@ =~= tallied(s.subrange(0, i + 1), now) + s.subrange(i + 1, n as int));
                    }
                    j = j + 1;
                } else {
                    let ghost before = self.rounds@;
                    self.rounds.remove(j);
                    proof {
                        assert(self.rounds@ =~= tallied(s.subrange(0, i + 1), now) + s.subrange(i + 1, n as int));
                        assert forall|a: int, b: int|
                            0 <= a < self.rounds@.len() && 0 <= b < self.rounds@.len() && a != b
                                implies #[trigger] self.rounds@[a].id != #[trigger] self.rounds@[b].id by {
                            let a2 = if a < j { a } else { a + 1 };
                            let b2 = if b < j { b } else { b + 1 };
                            assert(before[a2].id != before[b2].id);
                        }
                        assert forall|a: int| 0 <= a < self.rounds@.len() implies #[trigger] self.rounds@[a].id
                            < self.next_round_id && self.rounds@[a].wf_at(self.now) by {
                            let a2 = if a < j { a } else { a + 1 };
                            assert(before[a2].id < self.next_round_id && before[a2].wf_at(self.now));
                        }
                    }
                }
            } else {
                proof {
                    assert(self.rounds@ =~= tallied(s.subrange(0, i + 1), now) + s.subrange(i + 1, n as int));
                }
                j = j + 1;
            }
            i = i + 1;
        }
        proof {
            assert(i == n);
            assert(s.subrange(0, n as int) =~= s);
            assert(self.rounds@ =~= tallied(s, now));
        }
    }
}

proof fn lemma_votes_due_step(s: Seq<Vote>, i: int, now: BlockNumber, due: bool)
    requires
        0 <= i < s.len(),
    ensures
        votes_due(s.subrange(0, i + 1), now, due) == if (s[i].unlock_block <= now) == due {
            votes_due(s.subrange(0, i), now, due).push(s[i])
        } else {
            votes_due(s.subrange(0, i), now, due)
        },
{
    assert(s.subrange(0, i + 1).drop_last() =~= s.subrange(0, i));
}

proof fn lemma_stake_of_push(s: Seq<Vote>, v: Vote, w: AccountId)
    ensures
        stake_of(s.push(v), w) == stake_of(s, w) + if v.voter == w {
            v.amount as nat
        } else {
            0nat
        },
{
    assert(s.push(v).drop_last() =~= s);
}

impl Ido {
    /// Releases every vote whose unlock block has been reached: its whole
    /// stake goes back from reserved to free balance and the vote is
    /// deleted. Votes not yet unlocked keep their stake locked. Returns the
    /// released votes.
    pub fn release_due_votes(&mut self, ledger: &mut Ledger) -> (r: Vec<Vote>)
        requires
            old(self).wf(),
            old(ledger).wf(),
        ensures
            final(self).wf(),
            final(ledger).wf(),
            r@ == votes_due(old(self).votes@, old(self).now, true),
            final(self).votes@ == votes_due(old(self).votes@, old(self).now, false),
            stake_returned(*old(ledger), *final(ledger), old(self).config.governance_asset, r@),
            final(self).config == old(self).config,
            final(self).now == old(self).now,
            final(self).investors@ == old(self).investors@,
            final(self).rounds@ == old(self).rounds@,
            final(self).next_round_id == old(self).next_round_id,
    {
        let gov = self.config.governance_asset;
        let now = self.now;
        let ghost l0 = *ledger;
        let ghost s = self.votes@;
        let mut kept: Vec<Vote> = Vec::new();
        let mut released: Vec<Vote> = Vec::new();
        let mut i: usize = 0;
        assert(s.subrange(0, 0) =~= Seq::<Vote>::empty());
        while i < self.votes.len()
            invariant
                s == self.votes@,
                old(self).config.governance_asset == gov,
                old(self).now == now,
                ledger.wf(),
                i <= s.len(),
                kept@ == votes_due(s.subrange(0, i as int), now, false),
                released@ == votes_due(s.subrange(0, i as int), now, true),
                stake_returned(l0, *ledger, gov, released@),
            decreases s.len() - i,
        {
            let v = self.votes[i];
            proof {
                lemma_votes_due_step(s, i as int, now, true);
                lemma_votes_due_step(s, i as int, now, false);
            }
            if v.unlock_block <= now {
                let ghost l1 = *ledger;
                let ghost r1 = released@;
                ledger.unreserve(gov, v.voter, v.amount);
                released.push(v);
                proof {
                    assert forall|w: AccountId| #[trigger] ledger.reserved(gov, w) == sat_sub(l0.reserved(gov, w), stake_of(released@, w) as int) by {
                        lemma_stake_of_push(r1, v, w);
                        assert(l1.reserved(gov, w) == sat_sub(l0.reserved(gov, w), stake_of(r1, w) as int));
                        if w != v.voter {
                            assert(ledger.balance(gov, w) == l1.balance(gov, w));
                        }
                    }
                    assert forall|w: AccountId| #[trigger] ledger.free(gov, w) == l0.free(gov, w) + (l0.reserved(gov, w) - ledger.reserved(gov, w)) by {
                        assert(l1.free(gov, w) == l0.free(gov, w) + (l0.reserved(gov, w) - l1.reserved(gov, w)));
                        if w != v.voter {
                            assert(ledger.balance(gov, w) == l1.balance(gov, w));
                        }
                    }
                    assert forall|a: AssetId, w: AccountId| a != gov implies #[trigger] ledger.balance(a, w) == l0.balance(a, w) by {
                        assert(ledger.balance(a, w) == l1.balance(a, w));
                    }
                }
            } else {
                kept.push(v);
            }
            i = i + 1;
        }
        proof {
            assert(s.subrange(0, i as int) =~= s);
        }
        self.votes = kept;
        released
    }

    /// Runs the callbacks due when block `n` is reached: the current block
    /// moves forward to `n`, due drafts are tallied and due votes released.
    /// Returns the released votes.
    pub fn on_initialize(&mut self, ledger: &mut Ledger, n: BlockNumber) -> (r: Vec<Vote>)
        requires
            old(self).wf(),
            old(ledger).wf(),
        ensures
            final(self).wf(),
            final(ledger).wf(),
            final(self).now == if n > old(self).now {
                n
            } else {
                old(self).now
            },
            final(self).rounds@ == tallied(old(self).rounds@, final(self).now),
            r@ == votes_due(old(self).votes@, final(self).now, true),
            final(self).votes@ == votes_due(old(self).votes@, final(self).now, false),
            stake_returned(*old(ledger), *final(ledger), old(self).config.governance_asset, r@),
            final(self).config == old(self).config,
            final(self).investors@ == old(self).investors@,
            final(self).next_round_id == old(self).next_round_id,
    {
        self.set_block_number(n);
        self.tally_due_rounds();
        self.release_due_votes(ledger)
    }
}

/// `after` is `before` with `delta` moved from free to reserved balance of
/// `who` in `asset`; a negative `delta` moves back at most what is reserved.
pub open spec fn shifted(before: Ledger, after: Ledger, asset: AssetId, who: AccountId, delta: int) -> bool {
    let d = if delta < -before.reserved(asset, who) {
        -before.reserved(asset, who)
    } else {
        delta
    };
    after.holds(asset, who, before.free(asset, who) - d, before.reserved(asset, who) + d)
}

/// Reservation that placement `p` of commitment `x` asks of the investor.
pub open spec fn reservation_needed(s: Seq<Participant>, p: Placement, x: Participant) -> int {
    match p {
        Placement::Update(i) => if x.amount >= s[i as int].amount {
            x.amount - s[i as int].amount
        } else {
            0
        },
        Placement::Join => x.amount as int,
        Placement::Replace(_) => x.amount as int,
        Placement::Decline => 0,
    }
}

/// The ledger moves of placement `p` of commitment `x` in `s`: the
/// investor's reservation follows the commitment, an evicted victim's
/// commitment is released.
pub open spec fn interest_settled(
    before: Ledger,
    after: Ledger,
    asset: AssetId,
    s: Seq<Participant>,
    p: Placement,
    x: Participant,
) -> bool {
    match p {
        Placement::Update(i) => shifted(before, after, asset, x.investor, x.amount - s[i as int].amount)
            && after.agrees_except(&before, asset, x.investor),
        Placement::Join => shifted(before, after, asset, x.investor, x.amount as int)
            && after.agrees_except(&before, asset, x.investor),
        Placement::Replace(v) => {
            let victim = s[v as int].investor;
            &&& shifted(before, after, asset, x.investor, x.amount as int)
            &&& shifted(before, after, asset, victim, -s[v as int].amount)
            &&& forall|a: AssetId, w: AccountId|
                !(a == asset && (w == x.investor || w == victim)) ==> #[trigger] after.balance(a, w)
                    == before.balance(a, w)
        },
        Placement::Decline => after == before,
    }
}

/// `b` is `a` with, at most, other participants.
pub open spec fn same_but_participants(a: RoundRecord, b: RoundRecord) -> bool {
    &&& a.id == b.id
    &&& a.round == b.round
    &&& a.status == b.status
    &&& a.yes_weight == b.yes_weight
    &&& a.no_weight == b.no_weight
    &&& a.claims@ == b.claims@
    &&& a.raise_withdrawn == b.raise_withdrawn
    &&& a.token_withdrawn == b.token_withdrawn
}

/// Round `rec` accepts interest at block `now`.
pub open spec fn open_at(rec: RoundRecord, now: BlockNumber) -> bool {
    rec.round.start_block <= now < rec.round.close_block
}

impl Ido {
    /// The investor commits `amount` to the approved round `id` while it is
    /// open. The commitment is reserved from the investor's free balance of
    /// the raising asset and placed by the admission rule, with `seed` as
    /// the source of randomness; returns where it was placed.
    pub fn show_interest_in_round(
        &mut self,
        ledger: &mut Ledger,
        investor: AccountId,
        id: RoundId,
        amount: Balance,
        seed: u64,
    ) -> (r: Result<Placement, IdoError>)
        requires
            old(self).wf(),
            old(ledger).wf(),
        ensures
            final(self).wf(),
            final(ledger).wf(),
            !old(self).registered(investor) ==> r == Err::<Placement, IdoError>(IdoError::NotFound(Missing::Investor)),
            old(self).registered(investor) && !old(self).has_round(id, RoundStatus::Approved)
                ==> r == Err::<Placement, IdoError>(IdoError::NotFound(Missing::Round)),
            old(self).registered(investor) && old(self).has_round(id, RoundStatus::Approved)
                && !open_at(old(self).record(id), old(self).now)
                ==> r == Err::<Placement, IdoError>(IdoError::WindowViolation),
            old(self).registered(investor) && old(self).has_round(id, RoundStatus::Approved)
                && open_at(old(self).record(id), old(self).now)
                && !(old(self).record(id).round.min_allocation <= amount <= old(self).record(id).round.max_allocation)
                ==> r == Err::<Placement, IdoError>(IdoError::InvalidInput),
            r is Err ==> *final(self) == *old(self) && *final(ledger) == *old(ledger),
            ({
                let rec = old(self).record(id);
                let s = rec.participants@;
                let x = Participant { investor, amount };
                let p = placement(s, rec.round.capacity as nat, investor, amount, seed);
                &&& old(self).registered(investor) && old(self).has_round(id, RoundStatus::Approved)
                    && open_at(rec, old(self).now) && rec.round.min_allocation <= amount <= rec.round.max_allocation
                    && old(ledger).free(rec.round.raising_asset, investor) < reservation_needed(s, p, x)
                    ==> r == Err::<Placement, IdoError>(IdoError::InsufficientFunds)
                &&& r is Ok <==> old(self).registered(investor) && old(self).has_round(id, RoundStatus::Approved)
                    && open_at(rec, old(self).now) && rec.round.min_allocation <= amount <= rec.round.max_allocation
                    && old(ledger).free(rec.round.raising_asset, investor) >= reservation_needed(s, p, x)
                &&& r is Ok ==> {
                    let k = old(self).index_of(id);
                    &&& r == Ok::<Placement, IdoError>(p)
                    &&& final(self).rounds@.len() == old(self).rounds@.len()
                    &&& forall|j: int| 0 <= j < old(self).rounds@.len() && j != k ==> #[trigger] final(self).rounds@[j] == old(self).rounds@[j]
                    &&& same_but_participants(final(self).rounds@[k], rec)
                    &&& final(self).rounds@[k].participants@ == placed(s, p, x)
                    &&& final(self).same_except_rounds(&*old(self))
                    &&& interest_settled(*old(ledger), *final(ledger), rec.round.raising_asset, s, p, x)
                }
            }),
    {
        if self.find_investor(investor).is_none() {
            return Err(IdoError::NotFound(Missing::Investor));
        }
        let k = match self.find_round_in(id, RoundStatus::Approved) {
            None => return Err(IdoError::NotFound(Missing::Round)),
            Some(k) => k,
        };
        let now = self.now;
        let start_block = self.rounds[k].round.start_block;
        let close_block = self.rounds[k].round.close_block;
        if now < start_block || now >= close_block {
            return Err(IdoError::WindowViolation);
        }
        if amount < self.rounds[k].round.min_allocation || amount > self.rounds[k].round.max_allocation {
            return Err(IdoError::InvalidInput);
        }
        let asset = self.rounds[k].round.raising_asset;
        let cap = self.rounds[k].round.capacity;
        let p = place(&self.rounds[k].participants, cap, investor, amount, seed);
        let x = Participant { investor, amount };
        let ghost s = self.rounds@[k as int].participants@;
        let ghost l0 = *ledger;
        proof {
            crate::admission::lemma_admission_bounded(s, cap as nat, x, seed);
        }
        match p {
            Placement::Update(i) => {
                let held = self.rounds[k].participants[i].amount;
                if amount >= held {
                    if ledger.reserve(asset, investor, amount - held).is_err() {
                        return Err(IdoError::InsufficientFunds);
                    }
                } else {
                    ledger.unreserve(asset, investor, held - amount);
                }
            },
            Placement::Join => {
                if ledger.reserve(asset, investor, amount).is_err() {
                    return Err(IdoError::InsufficientFunds);
                }
            },
            Placement::Replace(v) => {
                proof {
                    crate::admission::lemma_victim(s, seed);
                }
                if ledger.reserve(asset, investor, amount).is_err() {
                    return Err(IdoError::InsufficientFunds);
                }
                let victim = self.rounds[k].participants[v];
                proof {
                    assert(s[v as int].investor != investor);
                }
                let ghost l1 = *ledger;
                ledger.unreserve(asset, victim.investor, victim.amount);
                proof {
                    assert forall|a: AssetId, w: AccountId|
                        !(a == asset && (w == investor || w == victim.investor)) implies #[trigger] ledger.balance(a, w)
                            == l0.balance(a, w) by {
                        assert(ledger.balance(a, w) == l1.balance(a, w));
                    }
                    assert(ledger.balance(asset, investor) == l1.balance(asset, investor));
                    assert(l1.balance(asset, victim.investor) == l0.balance(asset, victim.investor));
                }
            },
            Placement::Decline => {},
        }
        let ghost before = *self;
        let mut rec = self.rounds.remove(k);
        match p {
            Placement::Update(i) => {
                rec.participants.set(i, x);
            },
            Placement::Join => {
                rec.participants.push(x);
            },
            Placement::Replace(v) => {
                rec.participants.set(v, x);
            },
            Placement::Decline => {},
        }
        proof {
            assert(rec.participants@ =~= placed(s, p, x));
            assert forall|i: int|
                0 <= i < rec.participants@.len() implies rec.round.min_allocation
                    <= #[trigger] rec.participants@[i].amount <= rec.round.max_allocation by {
                if i < s.len() {
                    assert(s[i] == before.rounds@[k as int].participants@[i]);
                }
            }
        }
        self.rounds.insert(k, rec);
        proof {
            assert(self.rounds@ =~= before.rounds@.update(k as int, rec));
            lemma_update_keeps_wf(&before, &*self, k as int, rec);
        }
        Ok(p)
    }
}

/// What a tally leaves of record `r`: itself when not due, the approved
/// round when due and approved, nothing when due and rejected.
pub open spec fn tally_result(r: RoundRecord, now: BlockNumber) -> Option<RoundRecord> {
    if tally_due(r, now) {
        if approves(r) {
            Some(RoundRecord { status: RoundStatus::Approved, ..r })
        } else {
            None
        }
    } else {
        Some(r)
    }
}

proof fn lemma_tallied_from(s: Seq<RoundRecord>, now: BlockNumber, j: int)
    requires
        0 <= j < tallied(s, now).len(),
    ensures
        exists|k: int| 0 <= k < s.len() && tally_result(#[trigger] s[k], now) == Some(tallied(s, now)[j]),
    decreases s.len(),
{
    let t = tallied(s.drop_last(), now);
    if j < t.len() {
        lemma_tallied_from(s.drop_last(), now, j);
        let k = choose|k: int| 0 <= k < s.drop_last().len() && tally_result(#[trigger] s.drop_last()[k], now) == Some(t[j]);
        assert(s[k] == s.drop_last()[k]);
    } else {
        assert(tally_result(s[s.len() - 1], now) == Some(tallied(s, now)[j]));
    }
}

proof fn lemma_tallied_keeps(s: Seq<RoundRecord>, now: BlockNumber, i: int)
    requires
        0 <= i < s.len(),
        tally_result(s[i], now) is Some,
    ensures
        exists|j: int| 0 <= j < tallied(s, now).len() && Some(#[trigger] tallied(s, now)[j]) == tally_result(s[i], now),
    decreases s.len(),
{
    let t = tallied(s.drop_last(), now);
    if i < s.len() - 1 {
        assert(s.drop_last()[i] == s[i]);
        lemma_tallied_keeps(s.drop_last(), now, i);
        let j = choose|j: int| 0 <= j < t.len() && Some(#[trigger] t[j]) == tally_result(s.drop_last()[i], now);
        assert(tallied(s, now)[j] == t[j]);
    } else {
        assert(Some(tallied(s, now)[t.len() as int]) == tally_result(s[i], now));
    }
}

/// A completed tally approves a due draft exactly when the stake in favour
/// strictly exceeds the stake against: the round is then stored as
/// approved, and otherwise (a tie, or no votes) no round with its
/// identifier is left.
pub proof fn lemma_tally_decides(s: Seq<RoundRecord>, now: BlockNumber, i: int)
    requires
        0 <= i < s.len(),
        tally_due(s[i], now),
        forall|a: int, b: int| 0 <= a < s.len() && 0 <= b < s.len() && a != b ==> #[trigger] s[a].id != #[trigger] s[b].id,
    ensures
        (exists|j: int| 0 <= j < tallied(s, now).len() && #[trigger] tallied(s, now)[j].id == s[i].id)
            <==> s[i].yes_weight > s[i].no_weight,
        forall|j: int| 0 <= j < tallied(s, now).len() && #[trigger] tallied(s, now)[j].id == s[i].id
            ==> tallied(s, now)[j].status == RoundStatus::Approved,
{
    let t = tallied(s, now);
    assert forall|j: int| 0 <= j < t.len() && #[trigger] t[j].id == s[i].id implies t[j].status == RoundStatus::Approved
        && s[i].yes_weight > s[i].no_weight by {
        lemma_tallied_from(s, now, j);
        let k = choose|k: int| 0 <= k < s.len() && tally_result(#[trigger] s[k], now) == Some(t[j]);
        if k != i {
            assert(s[k].id != s[i].id);
        }
    }
    if s[i].yes_weight > s[i].no_weight {
        lemma_tallied_keeps(s, now, i);
        let j = choose|j: int| 0 <= j < t.len() && Some(#[trigger] t[j]) == tally_result(s[i], now);
        assert(t[j].id == s[i].id);
    }
}

/// Every stored round opens strictly before it closes.
pub proof fn lemma_round_window_ordered(ido: &Ido, i: int)
    requires
        ido.wf(),
        0 <= i < ido.rounds@.len(),
    ensures
        ido.rounds@[i].round.start_block < ido.rounds@[i].round.close_block,
{
    assert(ido.rounds@[i].id < ido.next_round_id && ido.rounds@[i].wf_at(ido.now));
}

/// In every reachable state a round holds at most its capacity of
/// participants, each committing between the minimum and maximum
/// allocation.
pub proof fn lemma_participants_bounded(ido: &Ido, i: int, j: int)
    requires
        ido.wf(),
        0 <= i < ido.rounds@.len(),
        0 <= j < ido.rounds@[i].participants@.len(),
    ensures
        ido.rounds@[i].participants@.len() <= ido.rounds@[i].round.capacity,
        ido.rounds@[i].round.min_allocation <= ido.rounds@[i].participants@[j].amount
            <= ido.rounds@[i].round.max_allocation,
{
    assert(ido.rounds@[i].id < ido.next_round_id && ido.rounds@[i].wf_at(ido.now));
}

/// Released stake comes back whole: when an account holds reserved at
/// least the stake of its released votes, exactly that stake moves from
/// reserved to free balance.
pub proof fn lemma_stake_fully_returned(before: Ledger, after: Ledger, asset: AssetId, released: Seq<Vote>, who: AccountId)
    requires
        stake_returned(before, after, asset, released),
        before.reserved(asset, who) >= stake_of(released, who),
    ensures
        after.reserved(asset, who) == before.reserved(asset, who) - stake_of(released, who),
        after.free(asset, who) == before.free(asset, who) + stake_of(released, who),
{
    assert(after.reserved(asset, who) == sat_sub(before.reserved(asset, who), stake_of(released, who) as int));
    assert(after.free(asset, who) == before.free(asset, who) + (before.reserved(asset, who) - after.reserved(asset, who)));
}

} // verus!
