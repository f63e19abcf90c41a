//! Bounded-capacity admission of interested participants with weighted
//! random eviction.
//!
//! When a round's participant set is full, a newcomer competes with one
//! victim drawn at random. Every retained entry but the first largest one
//! is a candidate, with weight one plus the number of entries that committed
//! strictly more, so smaller commitments are drawn more often and the
//! largest commitment is never drawn. The newcomer takes the victim's slot
//! only when it commits strictly more than the victim.
use crate::types::{AccountId, Balance, MAX_AMOUNT};
use vstd::prelude::*;

verus! {

/// Upper bound on a round's participant capacity.
pub const MAX_CAPACITY: u64 = 1000;

/// An investor's commitment to a round.
#[derive(Clone, Copy, Debug, PartialEq, Eq, Structural)]
pub struct Participant {
    pub investor: AccountId,
    pub amount: Balance,
}

/// Where an expression of interest lands in the participant list.
#[derive(Clone, Copy, Debug, PartialEq, Eq, Structural)]
pub enum Placement {
    /// The investor already participates at this index; the commitment is replaced.
    Update(usize),
    /// There is a free slot; the investor is appended.
    Join,
    /// The list is full; the investor takes the slot of the victim at this index.
    Replace(usize),
    /// The list is full and the drawn victim committed at least as much.
    Decline,
}

/// Number of entries of `s` that committed strictly more than `a`.
pub open spec fn count_greater(s: Seq<Participant>, a: Balance) -> nat
    decreases s.len(),
{
    if s.len() == 0 {
        0
    } else {
        count_greater(s.drop_last(), a) + if s.last().amount > a {
            1nat
        } else {
            0nat
        }
    }
}

/// `m` is the first index holding the largest commitment of `s`.
pub open spec fn is_first_max(s: Seq<Participant>, m: int) -> bool {
    &&& 0 <= m < s.len()
    &&& forall|j: int| 0 <= j < s.len() ==> #[trigger] s[j].amount <= s[m].amount
    &&& forall|j: int| 0 <= j < m ==> #[trigger] s[j].amount < s[m].amount
}

/// The first index holding the largest commitment of `s`.
pub open spec fn first_max(s: Seq<Participant>) -> int {
    choose|m: int| is_first_max(s, m)
}

/// Weight with which entry `i` is drawn as the eviction victim.
pub open spec fn eviction_weight(s: Seq<Participant>, i: int) -> nat {
    if i == first_max(s) {
        0
    } else {
        count_greater(s, s[i].amount) + 1
    }
}

/// Sum of the eviction weights of the first `n` entries.
pub open spec fn weight_prefix(s: Seq<Participant>, n: int) -> nat
    decreases n,
{
    if n <= 0 {
        0
    } else {
        weight_prefix(s, n - 1) + eviction_weight(s, n - 1)
    }
}

/// Sum of all eviction weights.
pub open spec fn total_weight(s: Seq<Participant>) -> nat {
    weight_prefix(s, s.len() as int)
}

/// Entry `i` is the one drawn by the number `r`: `r` falls in its band of
/// the cumulative weights.
pub open spec fn drawn_by(s: Seq<Participant>, r: nat, i: int) -> bool {
    &&& 0 <= i < s.len()
    &&& weight_prefix(s, i) <= r
    &&& r < weight_prefix(s, i + 1)
}

/// The eviction victim drawn by `seed`.
pub open spec fn victim(s: Seq<Participant>, seed: u64) -> int {
    choose|i: int| #[trigger] drawn_by(s, (seed as nat) % total_weight(s), i)
}

/// Sum of all commitments.
pub open spec fn total_committed(s: Seq<Participant>) -> nat
    decreases s.len(),
{
    if s.len() == 0 {
        0
    } else {
        total_committed(s.drop_last()) + s.last().amount as nat
    }
}

/// `investor` holds an entry in `s`.
pub open spec fn participates(s: Seq<Participant>, investor: AccountId) -> bool {
    exists|i: int| 0 <= i < s.len() && #[trigger] s[i].investor == investor
}

/// No investor appears twice.
pub open spec fn unique_investors(s: Seq<Participant>) -> bool {
    forall|i: int, j: int|
        0 <= i < s.len() && 0 <= j < s.len() && i != j ==> #[trigger] s[i].investor
            != #[trigger] s[j].investor
}

/// The placement of a commitment of `amount` by `investor` into `s`, of capacity `cap`.
pub open spec fn placement(s: Seq<Participant>, cap: nat, investor: AccountId, amount: Balance, seed: u64) -> Placement {
    if participates(s, investor) {
        Placement::Update((choose|i: int| 0 <= i < s.len() && s[i].investor == investor) as usize)
    } else if s.len() < cap {
        Placement::Join
    } else if amount > s[victim(s, seed)].amount {
        Placement::Replace(victim(s, seed) as usize)
    } else {
        Placement::Decline
    }
}

/// The participant list after `placement` is applied.
pub open spec fn placed(s: Seq<Participant>, p: Placement, x: Participant) -> Seq<Participant> {
    match p {
        Placement::Update(i) => s.update(i as int, x),
        Placement::Join => s.push(x),
        Placement::Replace(i) => s.update(i as int, x),
        Placement::Decline => s,
    }
}

pub proof fn lemma_count_greater_bounded(s: Seq<Participant>, a: Balance)
    ensures
        count_greater(s, a) <= s.len(),
    decreases s.len(),
{
    if s.len() > 0 {
        lemma_count_greater_bounded(s.drop_last(), a);
    }
}

/// Committing less never counts fewer entries above.
pub proof fn lemma_count_greater_antimonotone(s: Seq<Participant>, a: Balance, b: Balance)
    requires
        a <= b,
    ensures
        count_greater(s, b) <= count_greater(s, a),
        (exists|j: int| 0 <= j < s.len() && #[trigger] s[j].amount == b && a < b) ==> count_greater(s, b) + 1 <= count_greater(s, a),
    decreases s.len(),
{
    if s.len() > 0 {
        let t = s.drop_last();
        lemma_count_greater_antimonotone(t, a, b);
        if exists|j: int| 0 <= j < s.len() && #[trigger] s[j].amount == b && a < b {
            let j = choose|j: int| 0 <= j < s.len() && #[trigger] s[j].amount == b && a < b;
            if j < s.len() - 1 {
                assert(t[j].amount == b);
            }
        }
    }
}

proof fn lemma_first_max_unique(s: Seq<Participant>, m: int)
    requires
        is_first_max(s, m),
    ensures
        first_max(s) == m,
{
    let k = first_max(s);
    assert(is_first_max(s, k));
    if k < m {
        assert(s[k].amount < s[m].amount);
    } else if m < k {
        assert(s[m].amount < s[k].amount);
    }
}

proof fn lemma_weight_prefix_monotone(s: Seq<Participant>, i: int, j: int)
    requires
        i <= j,
    ensures
        weight_prefix(s, i) <= weight_prefix(s, j),
    decreases j - i,
{
    if i < j {
        lemma_weight_prefix_monotone(s, i, j - 1);
    }
}

proof fn lemma_weight_prefix_bounded(s: Seq<Participant>, n: int)
    requires
        0 <= n <= s.len(),
    ensures
        weight_prefix(s, n) <= n * (s.len() + 1),
    decreases n,
{
    if n > 0 {
        lemma_weight_prefix_bounded(s, n - 1);
        lemma_count_greater_bounded(s, s[n - 1].amount);
        assert((n - 1) * (s.len() + 1) + (s.len() + 1) == n * (s.len() + 1)) by (nonlinear_arith);
    }
}

proof fn lemma_drawn_unique(s: Seq<Participant>, r: nat, i: int, j: int)
    requires
        drawn_by(s, r, i),
        drawn_by(s, r, j),
    ensures
        i == j,
{
    if i < j {
        lemma_weight_prefix_monotone(s, i + 1, j);
    } else if j < i {
        lemma_weight_prefix_monotone(s, j + 1, i);
    }
}

proof fn lemma_total_committed_update(s: Seq<Participant>, i: int, x: Participant)
    requires
        0 <= i < s.len(),
    ensures
        total_committed(s.update(i, x)) == total_committed(s) - s[i].amount + x.amount,
    decreases s.len(),
{
    let t = s.update(i, x);
    if i == s.len() - 1 {
        assert(t.drop_last() =~= s.drop_last());
    } else {
        assert(t.drop_last() =~= s.drop_last().update(i, x));
        lemma_total_committed_update(s.drop_last(), i, x);
    }
}

proof fn lemma_first_max_exists(s: Seq<Participant>)
    requires
        s.len() > 0,
    ensures
        is_first_max(s, first_max(s)),
    decreases s.len(),
{
    if s.len() == 1 {
        assert(is_first_max(s, 0));
    } else {
        let t = s.drop_last();
        lemma_first_max_exists(t);
        let k = first_max(t);
        assert(forall|j: int| 0 <= j < t.len() ==> t[j] == s[j]);
        assert(forall|j: int| 0 <= j < t.len() ==> #[trigger] s[j].amount <= t[k].amount);
        if s.last().amount > t[k].amount {
            assert(is_first_max(s, s.len() - 1));
        } else {
            assert(is_first_max(s, k));
        }
    }
}

proof fn lemma_drawn_exists(s: Seq<Participant>, r: nat, n: int)
    requires
        0 <= n <= s.len(),
        r < weight_prefix(s, n),
    ensures
        exists|i: int| drawn_by(s, r, i),
    decreases n,
{
    if r < weight_prefix(s, n - 1) {
        lemma_drawn_exists(s, r, n - 1);
    } else {
        assert(drawn_by(s, r, n - 1));
    }
}

/// With two entries or more some entry has positive weight, and the drawn
/// victim is never the first largest commitment.
pub proof fn lemma_victim(s: Seq<Participant>, seed: u64)
    requires
        2 <= s.len(),
    ensures
        total_weight(s) > 0,
        drawn_by(s, (seed as nat) % total_weight(s), victim(s, seed)),
        victim(s, seed) != first_max(s),
        is_first_max(s, first_max(s)),
{
    lemma_first_max_exists(s);
    let m = first_max(s);
    let i: int = if m == 0 {
        1
    } else {
        0
    };
    lemma_weight_prefix_monotone(s, i + 1, s.len() as int);
    let r = (seed as nat) % total_weight(s);
    lemma_drawn_exists(s, r, s.len() as int);
    let v = victim(s, seed);
    assert(drawn_by(s, r, v));
    assert(weight_prefix(s, v + 1) == weight_prefix(s, v) + eviction_weight(s, v));
}

/// The first index holding the largest commitment.
pub fn first_max_index(s: &Vec<Participant>) -> (m: usize)
    requires
        s@.len() > 0,
    ensures
        is_first_max(s@, m as int),
        m == first_max(s@),
{
    let mut m: usize = 0;
    let mut i: usize = 1;
    while i < s.len()
        invariant
            1 <= i <= s@.len(),
            m < i,
            forall|j: int| 0 <= j < i ==> #[trigger] s@[j].amount <= s@[m as int].amount,
            forall|j: int| 0 <= j < m ==> #[trigger] s@[j].amount < s@[m as int].amount,
        decreases s@.len() - i,
    {
        if s[i].amount > s[m].amount {
            m = i;
        }
        i = i + 1;
    }
    proof {
        lemma_first_max_unique(s@, m as int);
    }
    m
}

/// Number of entries that committed strictly more than `a`.
fn count_greater_than(s: &Vec<Participant>, a: Balance) -> (r: u64)
    requires
        s@.len() <= MAX_CAPACITY,
    ensures
        r == count_greater(s@, a),
{
    let mut c: u64 = 0;
    let mut i: usize = 0;
    while i < s.len()
        invariant
            i <= s@.len() <= MAX_CAPACITY,
            c == count_greater(s@.subrange(0, i as int), a),
            c <= i,
        decreases s@.len() - i,
    {
        assert(s@.subrange(0, i + 1).drop_last() =~= s@.subrange(0, i as int));
        if s[i].amount > a {
            c = c + 1;
        }
        i = i + 1;
    }
    assert(s@.subrange(0, i as int) =~= s@);
    c
}

/// Draws the eviction victim for `seed`: the entry whose band of the
/// cumulative eviction weights holds `seed % total_weight`.
pub fn choose_victim(s: &Vec<Participant>, seed: u64) -> (v: usize)
    requires
        2 <= s@.len() <= MAX_CAPACITY,
    ensures
        total_weight(s@) > 0,
        drawn_by(s@, (seed as nat) % total_weight(s@), v as int),
        v == victim(s@, seed),
        v != first_max(s@),
{
    let n = s.len();
    let m = first_max_index(s);
    let ghost sv = s@;
    proof {
        lemma_victim(sv, seed);
        lemma_weight_prefix_bounded(sv, n as int);
        assert(n * (n + 1) <= MAX_CAPACITY * (MAX_CAPACITY + 1)) by (nonlinear_arith)
            requires n <= MAX_CAPACITY;
    }
    let mut total: u64 = 0;
    let mut i: usize = 0;
    while i < n
        invariant
            n == sv.len() <= MAX_CAPACITY,
            sv == s@,
            m == first_max(sv),
            i <= n,
            total == weight_prefix(sv, i as int),
            weight_prefix(sv, n as int) <= n * (n + 1) <= MAX_CAPACITY * (MAX_CAPACITY + 1),
        decreases n - i,
    {
        proof {
            lemma_weight_prefix_monotone(sv, i + 1, n as int);
        }
        if i != m {
            let c = count_greater_than(s, s[i].amount);
            total = total + c + 1;
        }
        i = i + 1;
    }
    let r = seed % total;
    let mut acc: u64 = 0;
    let mut k: usize = 0;
    while k < n
        invariant
            2 <= n == sv.len() <= MAX_CAPACITY,
            sv == s@,
            m == first_max(sv),
            k <= n,
            total == total_weight(sv),
            r < total,
            r == (seed as nat) % total_weight(sv),
            acc == weight_prefix(sv, k as int),
            acc <= r,
            total <= MAX_CAPACITY * (MAX_CAPACITY + 1),
        decreases n - k,
    {
        proof {
            lemma_weight_prefix_monotone(sv, k + 1, n as int);
        }
        let w: u64 = if k == m {
            0
        } else {
            count_greater_than(s, s[k].amount) + 1
        };
        if r < acc + w {
            proof {
                lemma_victim(sv, seed);
                lemma_drawn_unique(sv, r as nat, k as int, victim(sv, seed));
            }
            return k;
        }
        acc = acc + w;
        k = k + 1;
    }
    proof {
        assert(false);
    }
    0
}

/// Every commitment is at most the total committed.
pub proof fn lemma_commitment_le_total(s: Seq<Participant>, i: int)
    requires
        0 <= i < s.len(),
    ensures
        s[i].amount <= total_committed(s),
    decreases s.len(),
{
    if i < s.len() - 1 {
        lemma_commitment_le_total(s.drop_last(), i);
    }
}

/// A prefix never commits more than the whole list.
pub proof fn lemma_total_committed_prefix_le(s: Seq<Participant>, n: int)
    requires
        0 <= n <= s.len(),
    ensures
        total_committed(s.subrange(0, n)) <= total_committed(s),
    decreases s.len(),
{
    if n == s.len() {
        assert(s.subrange(0, n) =~= s);
    } else {
        assert(s.subrange(0, n) =~= s.drop_last().subrange(0, n));
        lemma_total_committed_prefix_le(s.drop_last(), n);
    }
}

/// The total committed.
pub fn sum_committed(s: &Vec<Participant>) -> (r: u128)
    requires
        s@.len() <= MAX_CAPACITY,
        forall|i: int| 0 <= i < s@.len() ==> #[trigger] s@[i].amount <= MAX_AMOUNT,
    ensures
        r == total_committed(s@),
        r <= MAX_CAPACITY * MAX_AMOUNT,
{
    let mut sum: u128 = 0;
    let mut i: usize = 0;
    while i < s.len()
        invariant
            i <= s@.len() <= MAX_CAPACITY,
            forall|k: int| 0 <= k < s@.len() ==> #[trigger] s@[k].amount <= MAX_AMOUNT,
            sum == total_committed(s@.subrange(0, i as int)),
            sum <= i * MAX_AMOUNT,
        decreases s@.len() - i,
    {
        assert(s@.subrange(0, i + 1).drop_last() =~= s@.subrange(0, i as int));
        assert(i * MAX_AMOUNT + MAX_AMOUNT == (i + 1) * MAX_AMOUNT) by (nonlinear_arith);
        assert((i + 1) * MAX_AMOUNT <= MAX_CAPACITY * MAX_AMOUNT) by (nonlinear_arith)
            requires i + 1 <= MAX_CAPACITY;
        sum = sum + s[i].amount;
        i = i + 1;
    }
    assert(s@.subrange(0, i as int) =~= s@);
    sum
}

/// Where a commitment of `amount` by `investor` goes in `s`, a list of
/// capacity `cap`.
pub fn place(s: &Vec<Participant>, cap: u64, investor: AccountId, amount: Balance, seed: u64) -> (p: Placement)
    requires
        2 <= cap <= MAX_CAPACITY,
        s@.len() <= cap,
        unique_investors(s@),
    ensures
        p == placement(s@, cap as nat, investor, amount, seed),
{
    let mut i: usize = 0;
    while i < s.len()
        invariant
            i <= s@.len(),
            unique_investors(s@),
            forall|j: int| 0 <= j < i ==> #[trigger] s@[j].investor != investor,
        decreases s@.len() - i,
    {
        if s[i].investor == investor {
            proof {
                assert(0 <= i < s@.len() && s@[i as int].investor == investor);
                let k = choose|k: int| 0 <= k < s@.len() && s@[k].investor == investor;
                assert(s@[k].investor == s@[i as int].investor);
                if k != i {
                    assert(s@[k].investor != s@[i as int].investor);
                }
            }
            return Placement::Update(i);
        }
        i = i + 1;
    }
    if (s.len() as u64) < cap {
        return Placement::Join;
    }
    let v = choose_victim(s, seed);
    if amount > s[v].amount {
        Placement::Replace(v)
    } else {
        Placement::Decline
    }
}

/// Admission keeps the list within its capacity and free of duplicate
/// investors.
pub proof fn lemma_admission_bounded(s: Seq<Participant>, cap: nat, x: Participant, seed: u64)
    requires
        2 <= cap <= MAX_CAPACITY,
        s.len() <= cap,
        unique_investors(s),
    ensures
        placed(s, placement(s, cap, x.investor, x.amount, seed), x).len() <= cap,
        unique_investors(placed(s, placement(s, cap, x.investor, x.amount, seed), x)),
{
    let p = placement(s, cap, x.investor, x.amount, seed);
    let t = placed(s, p, x);
    if participates(s, x.investor) {
        let k = choose|i: int| 0 <= i < s.len() && s[i].investor == x.investor;
        assert forall|i: int, j: int|
            0 <= i < t.len() && 0 <= j < t.len() && i != j implies #[trigger] t[i].investor
                != #[trigger] t[j].investor by {
            if i != k && j != k {
                assert(s[i].investor != s[j].investor);
            } else if i == k {
                assert(s[k].investor != s[j].investor);
            } else {
                assert(s[i].investor != s[k].investor);
            }
        }
    } else if s.len() < cap {
        assert forall|i: int, j: int|
            0 <= i < t.len() && 0 <= j < t.len() && i != j implies #[trigger] t[i].investor
                != #[trigger] t[j].investor by {
            if i < s.len() && j < s.len() {
                assert(s[i].investor != s[j].investor);
            } else if i < s.len() {
                assert(s[i].investor != x.investor);
            } else {
                assert(s[j].investor != x.investor);
            }
        }
    } else {
        lemma_victim(s, seed);
        let v = victim(s, seed);
        assert forall|i: int, j: int|
            0 <= i < t.len() && 0 <= j < t.len() && i != j implies #[trigger] t[i].investor
                != #[trigger] t[j].investor by {
            if i != v && j != v {
                assert(s[i].investor != s[j].investor);
            } else if i == v && x.amount > s[v].amount {
                assert(s[j].investor != x.investor);
            } else if j == v && x.amount > s[v].amount {
                assert(s[i].investor != x.investor);
            } else {
                assert(s[i].investor != s[j].investor);
            }
        }
    }
}

/// The largest commitment observed is always retained: after a newcomer's
/// admission some entry commits at least as much as the newcomer and as
/// every entry held before.
pub proof fn lemma_admission_retains_largest(s: Seq<Participant>, cap: nat, x: Participant, seed: u64)
    requires
        2 <= cap <= MAX_CAPACITY,
        s.len() <= cap,
        !participates(s, x.investor),
    ensures
        ({
            let t = placed(s, placement(s, cap, x.investor, x.amount, seed), x);
            exists|k: int|
                0 <= k < t.len() && t[k].amount >= x.amount && forall|j: int|
                    0 <= j < s.len() ==> #[trigger] s[j].amount <= t[k].amount
        }),
{
    let t = placed(s, placement(s, cap, x.investor, x.amount, seed), x);
    if s.len() > 0 {
        lemma_first_max_exists(s);
    }
    if s.len() < cap {
        if s.len() == 0 || x.amount >= s[first_max(s)].amount {
            assert(t[s.len() as int] == x);
            assert(forall|j: int| 0 <= j < s.len() ==> #[trigger] s[j].amount <= t[s.len() as int].amount);
        } else {
            lemma_first_max_exists(s);
            let m = first_max(s);
            assert(t[m] == s[m]);
            assert(forall|j: int| 0 <= j < s.len() ==> #[trigger] s[j].amount <= t[m].amount);
        }
    } else {
        lemma_victim(s, seed);
        let m = first_max(s);
        let v = victim(s, seed);
        if x.amount > s[v].amount && x.amount >= s[m].amount {
            assert(t[v] == x);
            assert(forall|j: int| 0 <= j < s.len() ==> #[trigger] s[j].amount <= t[v].amount);
        } else {
            assert(t[m] == s[m]);
            assert(forall|j: int| 0 <= j < s.len() ==> #[trigger] s[j].amount <= t[m].amount);
        }
    }
}

/// Admitting a newcomer never lowers the total committed.
pub proof fn lemma_admission_total_nondecreasing(s: Seq<Participant>, cap: nat, x: Participant, seed: u64)
    requires
        2 <= cap <= MAX_CAPACITY,
        s.len() <= cap,
        !participates(s, x.investor),
    ensures
        total_committed(placed(s, placement(s, cap, x.investor, x.amount, seed), x))
            >= total_committed(s),
{
    if s.len() < cap {
        assert(s.push(x).drop_last() =~= s);
    } else {
        lemma_victim(s, seed);
        let v = victim(s, seed);
        if x.amount > s[v].amount {
            lemma_total_committed_update(s, v, x);
        }
    }
}

/// Larger commitments are drawn as victims with strictly smaller weight,
/// and the first largest commitment is never drawn.
pub proof fn lemma_eviction_favors_smaller(s: Seq<Participant>, i: int, j: int)
    requires
        0 <= i < s.len(),
        0 <= j < s.len(),
        i != first_max(s),
        s[i].amount < s[j].amount,
    ensures
        eviction_weight(s, i) > eviction_weight(s, j),
        eviction_weight(s, first_max(s)) == 0,
{
    lemma_count_greater_antimonotone(s, s[i].amount, s[j].amount);
}

} // verus!
