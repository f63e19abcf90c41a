//! Settlement of closed rounds: linear vesting of purchased tokens to
//! participants, and the creator's withdrawal of the raise and of the
//! unsold tokens.
use crate::admission::{
    lemma_commitment_le_total, lemma_total_committed_prefix_le, participates, sum_committed,
    total_committed, unique_investors, Participant, MAX_CAPACITY,
};
use crate::ido::{sat_add, ClaimState, Ido, IdoError, Missing, RoundRecord, RoundStatus};
use crate::ledger::Ledger;
use crate::types::{AccountId, AssetId, Balance, BlockNumber, RoundId, MAX_AMOUNT};
use vstd::arithmetic::div_mod::{lemma_div_is_ordered, lemma_div_multiples_vanish};
use vstd::prelude::*;

verus! {

/// Tokens owed for a commitment of `amount` out of `total` committed, when
/// `selling` tokens are sold: the pro-rata share, rounded down.
pub open spec fn entitlement(amount: Balance, selling: Balance, total: nat) -> int {
    if total == 0 {
        0
    } else {
        (amount * selling) / (total as int)
    }
}

/// The commitment of `investor` in `s`.
pub open spec fn commitment_of(s: Seq<Participant>, investor: AccountId) -> Balance {
    s[choose|i: int| 0 <= i < s.len() && #[trigger] s[i].investor == investor].amount
}

/// Sum of the entitlements of all commitments of `s`.
pub open spec fn entitled_total(s: Seq<Participant>, selling: Balance, total: nat) -> int
    decreases s.len(),
{
    if s.len() == 0 {
        0
    } else {
        entitled_total(s.drop_last(), selling, total) + entitlement(s.last().amount, selling, total)
    }
}

/// Tokens of the round that nobody is entitled to.
pub open spec fn unsold(rec: RoundRecord) -> int {
    let s = rec.participants@;
    let left = rec.round.selling_amount - entitled_total(s, rec.round.selling_amount, total_committed(s));
    if left >= 0 {
        left
    } else {
        0
    }
}

/// `investor` has a claim record in `c`.
pub open spec fn has_claim(c: Seq<ClaimState>, investor: AccountId) -> bool {
    exists|i: int| 0 <= i < c.len() && #[trigger] c[i].investor == investor
}

/// Position of the claim record of `investor` in `c`.
pub open spec fn claim_index(c: Seq<ClaimState>, investor: AccountId) -> int {
    choose|i: int| 0 <= i < c.len() && #[trigger] c[i].investor == investor
}

/// The claim record of `investor`; before a first claim, vesting starts at
/// the close block with nothing claimed.
pub open spec fn claim_of(c: Seq<ClaimState>, investor: AccountId, close: BlockNumber) -> ClaimState {
    if has_claim(c, investor) {
        c[claim_index(c, investor)]
    } else {
        ClaimState { investor, last_claim_block: close, claimed: 0 }
    }
}

/// The block up to which tokens have vested at `now`.
pub open spec fn vested_until(close: BlockNumber, window: BlockNumber, now: BlockNumber) -> BlockNumber {
    let end = sat_add(close, window as int);
    if now < end {
        now
    } else {
        end
    }
}

/// Tokens released by a claim at vesting block `t`: the entitlement times
/// the blocks since the last claim over the vesting window, capped so that
/// the cumulative claimed amount never exceeds the entitlement.
pub open spec fn release(prev: ClaimState, e: int, t: BlockNumber, window: BlockNumber) -> int {
    let elapsed = if t > prev.last_claim_block {
        t - prev.last_claim_block
    } else {
        0
    };
    let vested = (e * elapsed) / (window as int);
    let room = if prev.claimed <= e {
        e - prev.claimed
    } else {
        0
    };
    if vested <= room {
        vested
    } else {
        room
    }
}

/// The claim record after a claim at vesting block `t`.
pub open spec fn next_claim(prev: ClaimState, e: int, t: BlockNumber, window: BlockNumber) -> ClaimState {
    ClaimState {
        investor: prev.investor,
        last_claim_block: if t > prev.last_claim_block {
            t
        } else {
            prev.last_claim_block
        },
        claimed: (prev.claimed + release(prev, e, t, window)) as u128,
    }
}

/// The entitlement of a commitment never exceeds the tokens sold.
pub proof fn lemma_entitlement_bounded(amount: Balance, selling: Balance, total: nat)
    requires
        amount <= total,
    ensures
        0 <= entitlement(amount, selling, total) <= selling,
{
    if total > 0 {
        let t = total as int;
        assert(amount * selling <= t * selling) by (nonlinear_arith)
            requires
                amount <= t,
                0 <= selling,
        ;
        assert(0 <= amount * selling) by (nonlinear_arith);
        lemma_div_is_ordered(amount * selling, t * selling, t);
        lemma_div_is_ordered(0, amount * selling, t);
        assert(t * selling == selling * t) by (nonlinear_arith);
        lemma_div_multiples_vanish(selling as int, t);
    }
}

/// The entitlements of a list's commitments sum to at most the tokens
/// sold times the list's length.
proof fn lemma_entitled_total_bounded(s: Seq<Participant>, selling: Balance, total: nat)
    requires
        total_committed(s) <= total,
    ensures
        0 <= entitled_total(s, selling, total) <= s.len() * selling,
    decreases s.len(),
{
    if s.len() > 0 {
        let t = s.drop_last();
        assert(total_committed(t) <= total_committed(s));
        lemma_entitled_total_bounded(t, selling, total);
        lemma_entitlement_bounded(s.last().amount, selling, total);
        assert((s.len() - 1) * selling + selling == s.len() * selling) by (nonlinear_arith);
    }
}

/// In every reachable state, each claim record belongs to a participant
/// and its cumulative claimed amount is at most that participant's
/// entitlement.
pub proof fn lemma_claims_within_entitlement(ido: &Ido, i: int, c: int)
    requires
        ido.wf(),
        0 <= i < ido.rounds@.len(),
        0 <= c < ido.rounds@[i].claims@.len(),
    ensures
        ({
            let rec = ido.rounds@[i];
            let s = rec.participants@;
            let claim = rec.claims@[c];
            &&& participates(s, claim.investor)
            &&& claim.claimed <= entitlement(commitment_of(s, claim.investor), rec.round.selling_amount, total_committed(s))
        }),
{
    assert(ido.rounds@[i].id < ido.next_round_id && ido.rounds@[i].wf_at(ido.now));
}

/// Sum of the entitlements of `s` when `selling` tokens are sold.
fn sum_entitlements(s: &Vec<Participant>, selling: Balance, total: Balance) -> (r: u128)
    requires
        s@.len() <= MAX_CAPACITY,
        selling <= MAX_AMOUNT,
        total == total_committed(s@),
        forall|i: int| 0 <= i < s@.len() ==> #[trigger] s@[i].amount <= MAX_AMOUNT,
    ensures
        r == entitled_total(s@, selling, total as nat),
{
    let mut sum: u128 = 0;
    let mut i: usize = 0;
    while i < s.len()
        invariant
            i <= s@.len() <= MAX_CAPACITY,
            selling <= MAX_AMOUNT,
            total == total_committed(s@),
            forall|k: int| 0 <= k < s@.len() ==> #[trigger] s@[k].amount <= MAX_AMOUNT,
            sum == entitled_total(s@.subrange(0, i as int), selling, total as nat),
            sum <= i * MAX_AMOUNT,
        decreases s@.len() - i,
    {
        let a = s[i].amount;
        proof {
            assert(s@.subrange(0, i + 1).drop_last() =~= s@.subrange(0, i as int));
            lemma_commitment_le_total(s@, i as int);
            lemma_entitlement_bounded(a, selling, total as nat);
            assert(a * selling <= MAX_AMOUNT * MAX_AMOUNT) by (nonlinear_arith)
                requires
                    a <= MAX_AMOUNT,
                    selling <= MAX_AMOUNT,
            ;
            assert(i * MAX_AMOUNT + MAX_AMOUNT == (i + 1) * MAX_AMOUNT) by (nonlinear_arith);
            assert((i + 1) * MAX_AMOUNT <= MAX_CAPACITY * MAX_AMOUNT) by (nonlinear_arith)
                requires
                    i + 1 <= MAX_CAPACITY,
            ;
        }
        if total > 0 {
            sum = sum + a * selling / total;
        }
        i = i + 1;
    }
    assert(s@.subrange(0, i as int) =~= s@);
    sum
}

impl Ido {
    /// Position of the claim record of `investor` in `c`, if any.
    fn find_claim(c: &Vec<ClaimState>, investor: AccountId) -> (r: Option<usize>)
        ensures
            r matches Some(i) ==> i < c@.len() && c@[i as int].investor == investor,
            r is None <==> !has_claim(c@, investor),
    {
        let mut i: usize = 0;
        while i < c.len()
            invariant
                i <= c@.len(),
                forall|j: int| 0 <= j < i ==> #[trigger] c@[j].investor != investor,
            decreases c@.len() - i,
        {
            if c[i].investor == investor {
                return Some(i);
            }
            i = i + 1;
        }
        None
    }

    /// Position of `investor` among the participants `s`, if any.
    fn find_participant(s: &Vec<Participant>, investor: AccountId) -> (r: Option<usize>)
        ensures
            r matches Some(i) ==> i < s@.len() && s@[i as int].investor == investor,
            r is None <==> !participates(s@, investor),
    {
        let mut i: usize = 0;
        while i < s.len()
            invariant
                i <= s@.len(),
                forall|j: int| 0 <= j < i ==> #[trigger] s@[j].investor != investor,
            decreases s@.len() - i,
        {
            if s[i].investor == investor {
                return Some(i);
            }
            i = i + 1;
        }
        None
    }
}

/// Every participant of `s` holds its commitment reserved in `asset`, and
/// `recipient`, not one of them, can receive all of it.
pub open spec fn fully_backed(l: Ledger, asset: AssetId, s: Seq<Participant>, recipient: AccountId) -> bool {
    &&& !participates(s, recipient)
    &&& l.total(asset, recipient) + total_committed(s) <= u128::MAX
    &&& forall|i: int| 0 <= i < s.len() ==> l.reserved(asset, #[trigger] s[i].investor) >= s[i].amount
}

/// `b` is `a` with, at most, other claim records.
pub open spec fn same_but_claims(a: RoundRecord, b: RoundRecord) -> bool {
    &&& a.id == b.id
    &&& a.round == b.round
    &&& a.status == b.status
    &&& a.yes_weight == b.yes_weight
    &&& a.no_weight == b.no_weight
    &&& a.participants@ == b.participants@
    &&& a.raise_withdrawn == b.raise_withdrawn
    &&& a.token_withdrawn == b.token_withdrawn
}

impl Ido {
    /// Why a withdrawal by `caller` from round `id` to `recipient` is
    /// refused, if it is: the recipient must be a registered investor, the
    /// round approved, the caller its creator and the round closed.
    pub open spec fn withdrawal_refusal(&self, caller: AccountId, id: RoundId, recipient: AccountId) -> Option<IdoError> {
        if !self.registered(recipient) {
            Some(IdoError::NotFound(Missing::Investor))
        } else if !self.has_round(id, RoundStatus::Approved) {
            Some(IdoError::NotFound(Missing::Round))
        } else if caller != self.record(id).round.creator {
            Some(IdoError::Unauthorized)
        } else if self.now < self.record(id).round.close_block {
            Some(IdoError::WindowViolation)
        } else {
            None
        }
    }

    /// Why a claim by `investor` on round `id` is refused, if it is: the
    /// investor must be registered, the round approved and closed, and the
    /// investor one of its participants.
    pub open spec fn claim_refusal(&self, investor: AccountId, id: RoundId) -> Option<IdoError> {
        if !self.registered(investor) {
            Some(IdoError::NotFound(Missing::Investor))
        } else if !self.has_round(id, RoundStatus::Approved) {
            Some(IdoError::NotFound(Missing::Round))
        } else if self.now < self.record(id).round.close_block {
            Some(IdoError::WindowViolation)
        } else if !participates(self.record(id).participants@, investor) {
            Some(IdoError::NotFound(Missing::Investor))
        } else {
            None
        }
    }

    fn check_withdrawal(&self, caller: AccountId, id: RoundId, recipient: AccountId) -> (r: Result<usize, IdoError>)
        requires
            self.wf(),
        ensures
            r is Err <==> self.withdrawal_refusal(caller, id, recipient) is Some,
            r matches Err(e) ==> self.withdrawal_refusal(caller, id, recipient) == Some(e),
            r matches Ok(k) ==> k < self.rounds@.len() && k == self.index_of(id)
                && self.rounds@[k as int].id == id && self.withdrawal_refusal(caller, id, recipient) is None,
    {
        if self.find_investor(recipient).is_none() {
            return Err(IdoError::NotFound(Missing::Investor));
        }
        let k = match self.find_round_in(id, RoundStatus::Approved) {
            None => return Err(IdoError::NotFound(Missing::Round)),
            Some(k) => k,
        };
        if caller != self.rounds[k].round.creator {
            return Err(IdoError::Unauthorized);
        }
        if self.now < self.rounds[k].round.close_block {
            return Err(IdoError::WindowViolation);
        }
        Ok(k)
    }

    /// Releases to `investor` the tokens of round `id` vested since the
    /// last claim, moving them from the creator's escrow. Returns the
    /// amount released.
    pub fn claim_tokens(&mut self, ledger: &mut Ledger, investor: AccountId, id: RoundId) -> (r: Result<Balance, IdoError>)
        requires
            old(self).wf(),
            old(ledger).wf(),
        ensures
            final(self).wf(),
            final(ledger).wf(),
            r is Err <==> old(self).claim_refusal(investor, id) is Some,
            r matches Err(e) ==> old(self).claim_refusal(investor, id) == Some(e),
            r is Err ==> *final(self) == *old(self) && *final(ledger) == *old(ledger),
            r matches Ok(released) ==> {
                let rec = old(self).record(id);
                let k = old(self).index_of(id);
                let s = rec.participants@;
                let e = entitlement(commitment_of(s, investor), rec.round.selling_amount, total_committed(s));
                let prev = claim_of(rec.claims@, investor, rec.round.close_block);
                let window = old(self).config.vesting_window;
                let t = vested_until(rec.round.close_block, window, old(self).now);
                let next = next_claim(prev, e, t, window);
                &&& released == release(prev, e, t, window)
                &&& next.claimed >= prev.claimed
                &&& prev.claimed <= e ==> next.claimed <= e
                &&& final(self).rounds@.len() == old(self).rounds@.len()
                &&& forall|j: int| 0 <= j < old(self).rounds@.len() && j != k ==> #[trigger] final(self).rounds@[j] == old(self).rounds@[j]
                &&& same_but_claims(final(self).rounds@[k], rec)
                &&& final(self).rounds@[k].claims@ == if has_claim(rec.claims@, investor) {
                    rec.claims@.update(claim_index(rec.claims@, investor), next)
                } else {
                    rec.claims@.push(next)
                }
                &&& final(self).same_except_rounds(&*old(self))
                &&& old(ledger).repatriated(&*final(ledger), rec.round.selling_asset, rec.round.creator, investor, released as int)
            },
    {
        if self.find_investor(investor).is_none() {
            return Err(IdoError::NotFound(Missing::Investor));
        }
        let k = match self.find_round_in(id, RoundStatus::Approved) {
            None => return Err(IdoError::NotFound(Missing::Round)),
            Some(k) => k,
        };
        let close = self.rounds[k].round.close_block;
        if self.now < close {
            return Err(IdoError::WindowViolation);
        }
        let pi = match Self::find_participant(&self.rounds[k].participants, investor) {
            None => return Err(IdoError::NotFound(Missing::Investor)),
            Some(pi) => pi,
        };
        let ghost s = self.rounds@[k as int].participants@;
        let ghost rec0 = self.rounds@[k as int];
        let a = self.rounds[k].participants[pi].amount;
        let selling = self.rounds[k].round.selling_amount;
        proof {
            assert(rec0.wf());
            assert(s[pi as int].amount <= rec0.round.max_allocation);
        }
        let total = sum_committed(&self.rounds[k].participants);
        proof {
            lemma_commitment_le_total(s, pi as int);
            lemma_entitlement_bounded(a, selling, total as nat);
            assert(0 <= pi < s.len() && s[pi as int].investor == investor);
            let c = choose|i: int| 0 <= i < s.len() && #[trigger] s[i].investor == investor;
            if c != pi {
                assert(s[c].investor != s[pi as int].investor);
            }
            assert(commitment_of(s, investor) == a);
            assert(a * selling <= MAX_AMOUNT * MAX_AMOUNT) by (nonlinear_arith)
                requires
                    a <= MAX_AMOUNT,
                    selling <= MAX_AMOUNT,
            ;
        }
        let e: u128 = a * selling / total;
        let window = self.config.vesting_window;
        let end = close.saturating_add(window);
        let t = if self.now < end {
            self.now
        } else {
            end
        };
        let ci = Self::find_claim(&self.rounds[k].claims, investor);
        let prev = match ci {
            Some(c) => self.rounds[k].claims[c],
            None => ClaimState { investor, last_claim_block: close, claimed: 0 },
        };
        proof {
            let cs = rec0.claims@;
            if let Some(c) = ci {
                let j = claim_index(cs, investor);
                assert(0 <= c < cs.len() && cs[c as int].investor == investor);
                if j != c {
                    assert(cs[j].investor != cs[c as int].investor);
                }
            }
            assert(prev == claim_of(cs, investor, close));
        }
        let elapsed: u64 = if t > prev.last_claim_block {
            t - prev.last_claim_block
        } else {
            0
        };
        proof {
            assert(e * elapsed <= MAX_AMOUNT * 0xffff_ffff_ffff_ffffu64) by (nonlinear_arith)
                requires
                    e <= MAX_AMOUNT,
                    elapsed <= 0xffff_ffff_ffff_ffffu64,
            ;
        }
        let vested: u128 = e * (elapsed as u128) / (window as u128);
        let room: u128 = if prev.claimed <= e {
            e - prev.claimed
        } else {
            0
        };
        let released = if vested <= room {
            vested
        } else {
            room
        };
        let next = ClaimState {
            investor,
            last_claim_block: if t > prev.last_claim_block {
                t
            } else {
                prev.last_claim_block
            },
            claimed: prev.claimed + released,
        };
        let selling_asset = self.rounds[k].round.selling_asset;
        let creator = self.rounds[k].round.creator;
        ledger.repatriate_reserved(selling_asset, creator, investor, released);
        let ghost before = *self;
        let mut rec = self.rounds.remove(k);
        match ci {
            Some(c) => {
                rec.claims.set(c, next);
            },
            None => {
                rec.claims.push(next);
            },
        }
        proof {
            let cs = rec0.claims@;
            assert forall|i: int, j: int|
                0 <= i < rec.claims@.len() && 0 <= j < rec.claims@.len() && i != j
                    implies #[trigger] rec.claims@[i].investor != #[trigger] rec.claims@[j].investor by {
                if let Some(c) = ci {
                    let c = c as int;
                    if i == c {
                        assert(cs[j].investor != cs[c].investor);
                    } else if j == c {
                        assert(cs[i].investor != cs[c].investor);
                    } else {
                        assert(cs[i].investor != cs[j].investor);
                    }
                } else if i < cs.len() && j < cs.len() {
                    assert(cs[i].investor != cs[j].investor);
                } else if i < cs.len() {
                    assert(cs[i].investor != investor);
                } else {
                    assert(cs[j].investor != investor);
                }
            }
        }
        self.rounds.insert(k, rec);
        proof {
            assert(self.rounds@ =~= before.rounds@.update(k as int, rec));
            crate::ido::lemma_update_keeps_wf(&before, &*self, k as int, rec);
            if let Some(c) = ci {
                assert(c == claim_index(rec0.claims@, investor));
                assert(rec.claims@ =~= rec0.claims@.update(c as int, next));
            }
        }
        Ok(released)
    }

    /// The creator moves the funds committed to the closed round `id` from
    /// each participant's reservation to `recipient`, once. Returns the
    /// amount moved.
    pub fn withdraw_raise(&mut self, ledger: &mut Ledger, caller: AccountId, id: RoundId, recipient: AccountId) -> (r: Result<Balance, IdoError>)
        requires
            old(self).wf(),
            old(ledger).wf(),
        ensures
            final(self).wf(),
            final(ledger).wf(),
            old(self).withdrawal_refusal(caller, id, recipient) matches Some(e) ==> r == Err::<Balance, IdoError>(e),
            old(self).withdrawal_refusal(caller, id, recipient) is None && old(self).record(id).raise_withdrawn
                ==> r == Err::<Balance, IdoError>(IdoError::AlreadyExists),
            r is Err ==> *final(self) == *old(self) && *final(ledger) == *old(ledger),
            r is Ok <==> old(self).withdrawal_refusal(caller, id, recipient) is None && !old(self).record(id).raise_withdrawn,
            r matches Ok(moved) ==> {
                let rec = old(self).record(id);
                let s = rec.participants@;
                &&& final(self).rounds@ == old(self).rounds@.update(old(self).index_of(id), (RoundRecord { raise_withdrawn: true, ..rec }))
                &&& final(self).same_except_rounds(&*old(self))
                &&& moved <= total_committed(s)
                &&& !participates(s, recipient) ==> final(ledger).total(rec.round.raising_asset, recipient)
                    == old(ledger).total(rec.round.raising_asset, recipient) + moved
                &&& fully_backed(*old(ledger), rec.round.raising_asset, s, recipient) ==> moved == total_committed(s)
                &&& forall|a: AssetId, w: AccountId|
                    !(a == rec.round.raising_asset && (w == recipient || participates(s, w)))
                        ==> #[trigger] final(ledger).balance(a, w) == old(ledger).balance(a, w)
            },
    {
        let k = match self.check_withdrawal(caller, id, recipient) {
            Err(e) => return Err(e),
            Ok(k) => k,
        };
        if self.rounds[k].raise_withdrawn {
            return Err(IdoError::AlreadyExists);
        }
        let asset = self.rounds[k].round.raising_asset;
        let ghost s = self.rounds@[k as int].participants@;
        let ghost l0 = *ledger;
        proof {
            assert(self.rounds@[k as int].wf());
        }
        let n = self.rounds[k].participants.len();
        let mut moved: u128 = 0;
        let mut i: usize = 0;
        while i < n
            invariant
                n == s.len() <= MAX_CAPACITY,
                s == self.rounds@[k as int].participants@,
                k < self.rounds@.len(),
                forall|j: int| 0 <= j < s.len() ==> #[trigger] s[j].amount <= MAX_AMOUNT,
                ledger.wf(),
                i <= n,
                moved <= total_committed(s.subrange(0, i as int)),
                total_committed(s.subrange(0, i as int)) <= i * MAX_AMOUNT,
                unique_investors(s),
                !participates(s, recipient) ==> ledger.total(asset, recipient) == l0.total(asset, recipient) + moved,
                fully_backed(l0, asset, s, recipient) ==> moved == total_committed(s.subrange(0, i as int)),
                !participates(s, recipient) ==> forall|j: int|
                    i <= j < s.len() ==> #[trigger] ledger.balance(asset, s[j].investor) == l0.balance(asset, s[j].investor),
                forall|a: AssetId, w: AccountId|
                    !(a == asset && (w == recipient || participates(s, w)))
                        ==> #[trigger] ledger.balance(a, w) == l0.balance(a, w),
            decreases n - i,
        {
            let p = self.rounds[k].participants[i];
            let ghost l1 = *ledger;
            let m = ledger.repatriate_reserved(asset, p.investor, recipient, p.amount);
            proof {
                assert(s.subrange(0, i + 1).drop_last() =~= s.subrange(0, i as int));
                assert(i * MAX_AMOUNT + MAX_AMOUNT == (i + 1) * MAX_AMOUNT) by (nonlinear_arith);
                assert((i + 1) * MAX_AMOUNT <= MAX_CAPACITY * MAX_AMOUNT) by (nonlinear_arith)
                    requires
                        i + 1 <= MAX_CAPACITY,
                ;
                assert(s[i as int].investor == p.investor);
                if !participates(s, recipient) {
                    assert(s[i as int].investor != recipient);
                    assert forall|j: int| i + 1 <= j < s.len() implies #[trigger] ledger.balance(asset, s[j].investor)
                        == l0.balance(asset, s[j].investor) by {
                        assert(s[j].investor != s[i as int].investor);
                        assert(s[j].investor != recipient);
                        assert(ledger.balance(asset, s[j].investor) == l1.balance(asset, s[j].investor));
                    }
                }
                if fully_backed(l0, asset, s, recipient) {
                    lemma_total_committed_prefix_le(s, i as int + 1);
                    assert(l1.reserved(asset, p.investor) >= p.amount);
                }
                assert forall|a: AssetId, w: AccountId|
                    !(a == asset && (w == recipient || participates(s, w))) implies #[trigger] ledger.balance(a, w)
                        == l0.balance(a, w) by {
                    assert(ledger.balance(a, w) == l1.balance(a, w));
                }
            }
            moved = moved + m;
            i = i + 1;
        }
        proof {
            assert(s.subrange(0, i as int) =~= s);
        }
        let ghost before = *self;
        let mut rec = self.rounds.remove(k);
        rec.raise_withdrawn = true;
        self.rounds.insert(k, rec);
        proof {
            assert(self.rounds@ =~= before.rounds@.update(k as int, rec));
            crate::ido::lemma_update_keeps_wf(&before, &*self, k as int, rec);
        }
        Ok(moved)
    }

    /// The creator moves the tokens of the closed round `id` that nobody is
    /// entitled to from escrow to `recipient`, once. Returns the amount moved.
    pub fn withdraw_token(&mut self, ledger: &mut Ledger, caller: AccountId, id: RoundId, recipient: AccountId) -> (r: Result<Balance, IdoError>)
        requires
            old(self).wf(),
            old(ledger).wf(),
        ensures
            final(self).wf(),
            final(ledger).wf(),
            old(self).withdrawal_refusal(caller, id, recipient) matches Some(e) ==> r == Err::<Balance, IdoError>(e),
            old(self).withdrawal_refusal(caller, id, recipient) is None && old(self).record(id).token_withdrawn
                ==> r == Err::<Balance, IdoError>(IdoError::AlreadyExists),
            r is Err ==> *final(self) == *old(self) && *final(ledger) == *old(ledger),
            r is Ok <==> old(self).withdrawal_refusal(caller, id, recipient) is None && !old(self).record(id).token_withdrawn,
            r matches Ok(moved) ==> {
                let rec = old(self).record(id);
                &&& final(self).rounds@ == old(self).rounds@.update(old(self).index_of(id), (RoundRecord { token_withdrawn: true, ..rec }))
                &&& final(self).same_except_rounds(&*old(self))
                &&& moved == old(ledger).repatriable(rec.round.selling_asset, rec.round.creator, recipient, unsold(rec))
                &&& old(ledger).repatriated(&*final(ledger), rec.round.selling_asset, rec.round.creator, recipient, unsold(rec))
            },
    {
        let k = match self.check_withdrawal(caller, id, recipient) {
            Err(e) => return Err(e),
            Ok(k) => k,
        };
        if self.rounds[k].token_withdrawn {
            return Err(IdoError::AlreadyExists);
        }
        proof {
            assert(self.rounds@[k as int].wf());
        }
        let selling = self.rounds[k].round.selling_amount;
        let total = sum_committed(&self.rounds[k].participants);
        let owed = sum_entitlements(&self.rounds[k].participants, selling, total);
        let left = if selling >= owed {
            selling - owed
        } else {
            0
        };
        let asset = self.rounds[k].round.selling_asset;
        let creator = self.rounds[k].round.creator;
        let moved = ledger.repatriate_reserved(asset, creator, recipient, left);
        let ghost before = *self;
        let mut rec = self.rounds.remove(k);
        rec.token_withdrawn = true;
        self.rounds.insert(k, rec);
        proof {
            assert(self.rounds@ =~= before.rounds@.update(k as int, rec));
            crate::ido::lemma_update_keeps_wf(&before, &*self, k as int, rec);
        }
        Ok(moved)
    }
}

} // verus!
