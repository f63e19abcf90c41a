//! Read-only queries over rounds, participants, claims and investors.
use crate::admission::{participates, sum_committed, total_committed};
use crate::ido::{ClaimState, Ido, KycStatus, RoundStatus};
use crate::settlement::{claim_index, commitment_of, has_claim};
use crate::types::{AccountId, Balance, BlockNumber, RoundId};
use vstd::prelude::*;

verus! {

impl Ido {
    /// Whether round `id` is stored as a draft.
    pub fn is_draft(&self, id: RoundId) -> (r: bool)
        requires
            self.wf(),
        ensures
            r == self.has_round(id, RoundStatus::Draft),
    {
        self.find_round_in(id, RoundStatus::Draft).is_some()
    }

    /// Whether round `id` is stored as an approved round.
    pub fn is_approved(&self, id: RoundId) -> (r: bool)
        requires
            self.wf(),
        ensures
            r == self.has_round(id, RoundStatus::Approved),
    {
        self.find_round_in(id, RoundStatus::Approved).is_some()
    }

    /// The active round of `creator`, if it has one.
    pub fn round_of_creator(&self, creator: AccountId) -> (r: Option<RoundId>)
        ensures
            r is None <==> !self.has_active_round(creator),
            r matches Some(id) ==> exists|i: int|
                0 <= i < self.rounds@.len() && #[trigger] self.rounds@[i].id == id
                    && self.rounds@[i].round.creator == creator && (self.rounds@[i].status
                    == RoundStatus::Draft || self.now < self.rounds@[i].round.close_block),
    {
        let mut i: usize = 0;
        while i < self.rounds.len()
            invariant
                i <= self.rounds@.len(),
                forall|j: int|
                    0 <= j < i ==> !(#[trigger] self.rounds@[j].round.creator == creator && (
                    self.rounds@[j].status == RoundStatus::Draft || self.now
                        < self.rounds@[j].round.close_block)),
            decreases self.rounds@.len() - i,
        {
            let r = &self.rounds[i];
            if r.round.creator == creator && (r.status == RoundStatus::Draft || self.now
                < r.round.close_block) {
                assert(self.rounds@[i as int].id == r.id);
                return Some(r.id);
            }
            i = i + 1;
        }
        None
    }

    /// Start and close block of round `id`.
    pub fn round_window(&self, id: RoundId) -> (r: Option<(BlockNumber, BlockNumber)>)
        requires
            self.wf(),
        ensures
            r is None <==> !self.has_round(id, RoundStatus::Draft) && !self.has_round(id, RoundStatus::Approved),
            r matches Some(w) ==> w.0 == self.record(id).round.start_block && w.1 == self.record(id).round.close_block,
            r matches Some(w) ==> w.0 < w.1,
    {
        match self.find_round(id) {
            None => None,
            Some(k) => {
                proof {
                    assert(self.rounds@[k as int].wf());
                    if self.rounds@[k as int].status == RoundStatus::Draft {
                        assert(self.has_round(id, RoundStatus::Draft));
                    } else {
                        assert(self.has_round(id, RoundStatus::Approved));
                    }
                }
                Some((self.rounds[k].round.start_block, self.rounds[k].round.close_block))
            },
        }
    }

    /// Total committed to round `id` by its retained participants.
    pub fn actual_raise(&self, id: RoundId) -> (r: Option<Balance>)
        requires
            self.wf(),
        ensures
            r is None <==> !self.has_round(id, RoundStatus::Draft) && !self.has_round(id, RoundStatus::Approved),
            r matches Some(x) ==> x == total_committed(self.record(id).participants@),
    {
        match self.find_round(id) {
            None => None,
            Some(k) => {
                proof {
                    assert(self.rounds@[k as int].wf());
                    if self.rounds@[k as int].status == RoundStatus::Draft {
                        assert(self.has_round(id, RoundStatus::Draft));
                    } else {
                        assert(self.has_round(id, RoundStatus::Approved));
                    }
                }
                Some(sum_committed(&self.rounds[k].participants))
            },
        }
    }

    /// Number of retained participants of round `id`.
    pub fn participant_count(&self, id: RoundId) -> (r: Option<usize>)
        requires
            self.wf(),
        ensures
            r is None <==> !self.has_round(id, RoundStatus::Draft) && !self.has_round(id, RoundStatus::Approved),
            r matches Some(n) ==> n == self.record(id).participants@.len(),
    {
        match self.find_round(id) {
            None => None,
            Some(k) => {
                proof {
                    if self.rounds@[k as int].status == RoundStatus::Draft {
                        assert(self.has_round(id, RoundStatus::Draft));
                    } else {
                        assert(self.has_round(id, RoundStatus::Approved));
                    }
                }
                Some(self.rounds[k].participants.len())
            },
        }
    }

    /// The retained commitment of `investor` to round `id`, if any.
    pub fn commitment(&self, id: RoundId, investor: AccountId) -> (r: Option<Balance>)
        requires
            self.wf(),
        ensures
            r is None <==> !(self.has_round(id, RoundStatus::Draft) || self.has_round(id, RoundStatus::Approved))
                || !participates(self.record(id).participants@, investor),
            r matches Some(a) ==> a == commitment_of(self.record(id).participants@, investor),
    {
        let k = match self.find_round(id) {
            None => return None,
            Some(k) => k,
        };
        proof {
            if self.rounds@[k as int].status == RoundStatus::Draft {
                assert(self.has_round(id, RoundStatus::Draft));
            } else {
                assert(self.has_round(id, RoundStatus::Approved));
            }
        }
        let ghost s = self.rounds@[k as int].participants@;
        let mut i: usize = 0;
        while i < self.rounds[k].participants.len()
            invariant
                k < self.rounds@.len(),
                k == self.index_of(id),
                self.has_round(id, RoundStatus::Draft) || self.has_round(id, RoundStatus::Approved),
                s == self.rounds@[k as int].participants@,
                self.rounds@[k as int].wf(),
                i <= s.len(),
                forall|j: int| 0 <= j < i ==> #[trigger] s[j].investor != investor,
            decreases s.len() - i,
        {
            if self.rounds[k].participants[i].investor == investor {
                proof {
                    assert(0 <= i < s.len() && s[i as int].investor == investor);
                    let c = choose|c: int| 0 <= c < s.len() && #[trigger] s[c].investor == investor;
                    if c != i {
                        assert(s[c].investor != s[i as int].investor);
                    }
                }
                return Some(self.rounds[k].participants[i].amount);
            }
            i = i + 1;
        }
        None
    }

    /// The claim record of `investor` in round `id`, once it has claimed.
    pub fn claim_state(&self, id: RoundId, investor: AccountId) -> (r: Option<ClaimState>)
        requires
            self.wf(),
        ensures
            r is None <==> !(self.has_round(id, RoundStatus::Draft) || self.has_round(id, RoundStatus::Approved))
                || !has_claim(self.record(id).claims@, investor),
            r matches Some(c) ==> c == self.record(id).claims@[claim_index(self.record(id).claims@, investor)],
    {
        let k = match self.find_round(id) {
            None => return None,
            Some(k) => k,
        };
        proof {
            if self.rounds@[k as int].status == RoundStatus::Draft {
                assert(self.has_round(id, RoundStatus::Draft));
            } else {
                assert(self.has_round(id, RoundStatus::Approved));
            }
        }
        let ghost c = self.rounds@[k as int].claims@;
        let mut i: usize = 0;
        while i < self.rounds[k].claims.len()
            invariant
                k < self.rounds@.len(),
                k == self.index_of(id),
                self.has_round(id, RoundStatus::Draft) || self.has_round(id, RoundStatus::Approved),
                c == self.rounds@[k as int].claims@,
                self.rounds@[k as int].wf(),
                i <= c.len(),
                forall|j: int| 0 <= j < i ==> #[trigger] c[j].investor != investor,
            decreases c.len() - i,
        {
            if self.rounds[k].claims[i].investor == investor {
                proof {
                    assert(0 <= i < c.len() && c[i as int].investor == investor);
                    let x = claim_index(c, investor);
                    if x != i {
                        assert(c[x].investor != c[i as int].investor);
                    }
                }
                return Some(self.rounds[k].claims[i]);
            }
            i = i + 1;
        }
        None
    }

    /// The KYC tier of `who`, if registered.
    pub fn kyc_status(&self, who: AccountId) -> (r: Option<KycStatus>)
        requires
            self.wf(),
        ensures
            r is None <==> !self.registered(who),
            r matches Some(k) ==> k == self.investor(who).kyc,
    {
        match self.find_investor(who) {
            None => None,
            Some(i) => {
                proof {
                    let x = choose|x: int| 0 <= x < self.investors@.len() && #[trigger] self.investors@[x].account == who;
                    if x != i {
                        assert(self.investors@[x].account != self.investors@[i as int].account);
                    }
                }
                Some(self.investors[i].kyc)
            },
        }
    }
}

} // verus!
