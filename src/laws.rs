use vstd::prelude::*;
use crate::accrual::{accrued, credited};
use crate::config::Config;
use crate::errors::ProgramErrorCode;
use crate::purchase::{
    chapter_granted, entitlements_granted, gains, purchase_error, purchase_outcome, with_reader,
    Settlement, Target,
};
use crate::staking::{claim_outcome, drained, stake_outcome, topped_up};
use crate::state::{has_staker, holds_all, Book, Pubkey, Stake};

verus! {

proof fn lemma_with_reader_keeps(v: Seq<Pubkey>, k: Pubkey, x: Pubkey)
    ensures
        v.contains(x) ==> with_reader(v, k).contains(x),
        with_reader(v, k).contains(k),
{
    if v.contains(x) && !v.contains(k) {
        let i = choose|i: int| 0 <= i < v.len() && v[i] == x;
        assert(v.push(k)[i] == x);
    }
    if !v.contains(k) {
        assert(v.push(k)[v.len() as int] == k);
    }
}

/// Once a purchase of a chapter has gone through, the buyer holds it, and
/// asking for the same chapter again is refused as already purchased and
/// changes nothing.
pub proof fn no_double_purchase(
    first: Book,
    second: Book,
    cfg: Config,
    buyer: Pubkey,
    index: u8,
    balance: u64,
    settled: Settlement,
    again: Book,
    again_balance: u64,
    r: Result<Settlement, ProgramErrorCode>,
)
    requires
        purchase_outcome(first, second, cfg, buyer, Target::Chapter(index), balance, Ok(settled)),
        purchase_outcome(second, again, cfg, buyer, Target::Chapter(index), again_balance, r),
    ensures
        second.holds(buyer, index as int),
        purchase_error(second, cfg, buyer, Target::Chapter(index), again_balance) == Some(
            ProgramErrorCode::AlreadyPurchased,
        ),
        r == Err::<Settlement, ProgramErrorCode>(ProgramErrorCode::AlreadyPurchased),
        again == second,
{
    let i = index as int;
    assert(chapter_granted(first.chapters@[i], second.chapters@[i], buyer, gains(Target::Chapter(index), i)));
    lemma_with_reader_keeps(first.chapters@[i].readers@, buyer, buyer);
}

proof fn lemma_grants_accumulate(states: Seq<Book>, order: Seq<u8>, buyer: Pubkey, k: int)
    requires
        states.len() == order.len() + 1,
        0 <= k <= order.len(),
        forall|m: int|
            0 <= m < order.len() ==> entitlements_granted(
                states[m],
                states[m + 1],
                buyer,
                Target::Chapter(#[trigger] order[m]),
            ),
    ensures
        states[k].chapters@.len() == states[0].chapters@.len(),
        forall|m: int|
            0 <= m < k && (order[m] as int) < states[0].chapters@.len() ==> #[trigger] states[k].holds(
                buyer,
                order[m] as int,
            ),
        forall|j: int|
            0 <= j < states[0].chapters@.len() && #[trigger] states[0].holds(buyer, j)
                ==> states[k].holds(buyer, j),
    decreases k,
{
    if k > 0 {
        lemma_grants_accumulate(states, order, buyer, k - 1);
        let prev = states[k - 1];
        let cur = states[k];
        assert(entitlements_granted(prev, cur, buyer, Target::Chapter(order[k - 1])));
        assert forall|j: int| 0 <= j < prev.chapters@.len() && prev.holds(buyer, j) implies cur.holds(
            buyer,
            j,
        ) by {
            assert(chapter_granted(
                prev.chapters@[j],
                cur.chapters@[j],
                buyer,
                gains(Target::Chapter(order[k - 1]), j),
            ));
            lemma_with_reader_keeps(prev.chapters@[j].readers@, buyer, buyer);
        }
        assert forall|m: int|
            0 <= m < k && (order[m] as int) < states[0].chapters@.len() implies #[trigger] cur.holds(
            buyer,
            order[m] as int,
        ) by {
            let j = order[m] as int;
            assert(chapter_granted(
                prev.chapters@[j],
                cur.chapters@[j],
                buyer,
                gains(Target::Chapter(order[k - 1]), j),
            ));
            lemma_with_reader_keeps(prev.chapters@[j].readers@, buyer, buyer);
            if m < k - 1 {
                assert(prev.holds(buyer, j));
            }
        }
    }
}

/// Some entry of `order` is chapter `j`.
pub open spec fn names_chapter(order: Seq<u8>, j: int) -> bool {
    exists|m: int| 0 <= m < order.len() && #[trigger] order[m] as int == j
}

/// Granting a buyer, one by one and in any order, at least the chapters it
/// lacks, and granting it the whole book at once, end in the same
/// entitlements: a reader of every chapter and a full-book reader.
pub proof fn piecemeal_grants_match_full_grant(
    start: Book,
    states: Seq<Book>,
    order: Seq<u8>,
    buyer: Pubkey,
    full: Book,
)
    requires
        order.len() >= 1,
        states.len() == order.len() + 1,
        states[0] == start,
        forall|m: int|
            0 <= m < order.len() ==> (#[trigger] order[m] as int) < start.chapters@.len()
                && entitlements_granted(states[m], states[m + 1], buyer, Target::Chapter(order[m])),
        forall|j: int|
            0 <= j < start.chapters@.len() ==> start.holds(buyer, j) || #[trigger] names_chapter(
                order,
                j,
            ),
        entitlements_granted(start, full, buyer, Target::FullBook),
    ensures
        holds_all(states.last().chapters@, buyer),
        states.last().readers@.contains(buyer),
        holds_all(full.chapters@, buyer),
        full.readers@.contains(buyer),
        states.last().chapters@.len() == full.chapters@.len(),
{
    let n = order.len() as int;
    lemma_grants_accumulate(states, order, buyer, n);
    let last = states[n];
    assert forall|j: int| 0 <= j < last.chapters@.len() implies #[trigger] last.chapters@[j].readers@.contains(
        buyer,
    ) by {
        if start.holds(buyer, j) {
            assert(states[0].holds(buyer, j));
        } else {
            assert(names_chapter(order, j));
            let m = choose|m: int| 0 <= m < n && #[trigger] order[m] as int == j;
            assert(last.holds(buyer, order[m] as int));
        }
    }
    assert forall|j: int| 0 <= j < full.chapters@.len() implies #[trigger] full.chapters@[j].readers@.contains(
        buyer,
    ) by {
        assert(chapter_granted(start.chapters@[j], full.chapters@[j], buyer, true));
        lemma_with_reader_keeps(start.chapters@[j].readers@, buyer, buyer);
    }
    lemma_with_reader_keeps(start.readers@, buyer, buyer);
    let prev = states[n - 1];
    assert(entitlements_granted(prev, last, buyer, Target::Chapter(order[n - 1])));
    lemma_with_reader_keeps(prev.readers@, buyer, buyer);
}

/// Buying, one by one and in any order, the chapters a buyer lacks, and
/// buying the whole book at once, end in the same entitlements: a reader of
/// every chapter and a full-book reader.
pub proof fn piecemeal_matches_full_book(
    start: Book,
    states: Seq<Book>,
    order: Seq<u8>,
    balances: Seq<u64>,
    settled: Seq<Settlement>,
    cfg: Config,
    buyer: Pubkey,
    full: Book,
    full_balance: u64,
    full_settled: Settlement,
)
    requires
        states.len() == order.len() + 1,
        balances.len() == order.len(),
        settled.len() == order.len(),
        states[0] == start,
        forall|m: int|
            0 <= m < order.len() ==> purchase_outcome(
                states[m],
                states[m + 1],
                cfg,
                buyer,
                Target::Chapter(#[trigger] order[m]),
                balances[m],
                Ok(settled[m]),
            ),
        forall|j: int|
            0 <= j < start.chapters@.len() ==> start.holds(buyer, j) || #[trigger] names_chapter(
                order,
                j,
            ),
        purchase_outcome(start, full, cfg, buyer, Target::FullBook, full_balance, Ok(full_settled)),
    ensures
        holds_all(states.last().chapters@, buyer),
        states.last().readers@.contains(buyer),
        holds_all(full.chapters@, buyer),
        full.readers@.contains(buyer),
        states.last().chapters@.len() == full.chapters@.len(),
{
    let n = order.len() as int;
    assert forall|m: int| 0 <= m < n implies (#[trigger] order[m] as int) < start.chapters@.len()
        && entitlements_granted(states[m], states[m + 1], buyer, Target::Chapter(order[m])) by {
        assert(purchase_outcome(
            states[m],
            states[m + 1],
            cfg,
            buyer,
            Target::Chapter(order[m]),
            balances[m],
            Ok(settled[m]),
        ));
        lemma_grants_accumulate(states, order, buyer, m);
    }
    // a full-book purchase needs a chapter not yet held, so some chapter is
    // bought one by one as well
    if n == 0 {
        assert(holds_all(start.chapters@, buyer)) by {
            assert forall|j: int| 0 <= j < start.chapters@.len() implies #[trigger] start.chapters@[j].readers@.contains(
                buyer,
            ) by {
                if !start.holds(buyer, j) {
                    assert(names_chapter(order, j));
                }
            }
        }
        lemma_unowned_zero(start.chapters@, buyer);
    }
    piecemeal_grants_match_full_grant(start, states, order, buyer, full);
}

/// Nobody who holds every chapter owes anything for the rest of the book.
pub proof fn lemma_unowned_zero(chs: Seq<crate::state::Chapter>, k: Pubkey)
    requires
        holds_all(chs, k),
    ensures
        crate::state::unowned_price(chs, k) == 0,
    decreases chs.len(),
{
    if chs.len() > 0 {
        assert(chs[chs.len() - 1].readers@.contains(k));
        assert forall|j: int| 0 <= j < chs.drop_last().len() implies #[trigger] chs.drop_last()[j].readers@.contains(
            k,
        ) by {
            assert(chs[j].readers@.contains(k));
        }
        lemma_unowned_zero(chs.drop_last(), k);
    }
}

/// The stakers of `old` are still there, in the same places, in `new`, and
/// none has less lifetime earnings.
pub open spec fn lifetime_kept(old: Seq<Stake>, new: Seq<Stake>) -> bool {
    &&& old.len() <= new.len()
    &&& forall|i: int|
        0 <= i < old.len() ==> {
            &&& #[trigger] new[i].staker == old[i].staker
            &&& new[i].total_earning >= old[i].total_earning
        }
}

/// No staker of `old` has less claimable earnings in `new`.
pub open spec fn claimable_kept(old: Seq<Stake>, new: Seq<Stake>) -> bool {
    &&& old.len() <= new.len()
    &&& forall|i: int| 0 <= i < old.len() ==> #[trigger] new[i].earnings >= old[i].earnings
}

/// A purchase, whether it goes through or not, takes no earnings from any
/// staker, claimable or lifetime.
pub proof fn purchase_keeps_earnings(
    old: Book,
    new: Book,
    cfg: Config,
    buyer: Pubkey,
    target: Target,
    balance: u64,
    r: Result<Settlement, ProgramErrorCode>,
)
    requires
        purchase_outcome(old, new, cfg, buyer, target, balance, r),
    ensures
        lifetime_kept(old.stakes@, new.stakes@),
        claimable_kept(old.stakes@, new.stakes@),
{
    if let Ok(s) = r {
        if old.total_stake > 0 {
            assert forall|i: int| 0 <= i < old.stakes@.len() implies {
                &&& #[trigger] new.stakes@[i].staker == old.stakes@[i].staker
                &&& new.stakes@[i].total_earning >= old.stakes@[i].total_earning
                &&& new.stakes@[i].earnings >= old.stakes@[i].earnings
            } by {
                assert(accrued(old.stakes@, new.stakes@, s.shares.stake_share, old.total_stake));
                assert(credited(old.stakes@[i], new.stakes@[i], s.shares.stake_share, old.total_stake));
                lemma_share_nonneg(old.stakes@[i].amount, s.shares.stake_share, old.total_stake);
            }
        }
    }
}

proof fn lemma_share_nonneg(amount: u64, pool: u64, total: u64)
    requires
        total > 0,
    ensures
        crate::accrual::staker_share(amount, pool, total) >= 0,
{
    assert((amount as int * pool as int) / total as int >= 0) by (nonlinear_arith)
        requires
            total > 0,
    ;
}

/// A deposit takes no earnings from any staker, claimable or lifetime.
pub proof fn deposit_keeps_earnings(
    old: Book,
    new: Book,
    cfg: Config,
    staker: Pubkey,
    amount: u64,
    balance: u64,
    r: Result<(), ProgramErrorCode>,
)
    requires
        old.wf(),
        stake_outcome(old, new, cfg, staker, amount, balance, r),
    ensures
        lifetime_kept(old.stakes@, new.stakes@),
        claimable_kept(old.stakes@, new.stakes@),
{
    if r.is_ok() {
        if has_staker(old.stakes@, staker) {
            let i = choose|i: int| 0 <= i < old.stakes@.len() && #[trigger] old.stakes@[i].staker == staker;
            assert(new.stakes@ == old.stakes@.update(i, topped_up(old.stakes@[i], amount)));
        } else {
            assert(new.stakes@ == old.stakes@.push(
                Stake { staker, amount, earnings: 0, total_earning: 0 },
            ));
        }
    }
}

/// A claim keeps every lifetime counter, pays the claimant's earnings down to
/// exactly zero, and leaves every other staker's claimable earnings alone.
pub proof fn claim_keeps_lifetime_earnings(
    old: Book,
    new: Book,
    staker: Pubkey,
    pool_balance: u64,
    r: Result<u64, ProgramErrorCode>,
)
    requires
        claim_outcome(old, new, staker, pool_balance, r),
    ensures
        lifetime_kept(old.stakes@, new.stakes@),
        new.stakes@.len() == old.stakes@.len(),
        forall|i: int|
            0 <= i < old.stakes@.len() ==> #[trigger] new.stakes@[i].earnings == if r.is_ok()
                && old.stakes@[i].staker == staker {
                0
            } else {
                old.stakes@[i].earnings as int
            },
{
    if r.is_ok() {
        assert(has_staker(old.stakes@, staker)) by {
            if !has_staker(old.stakes@, staker) {
                assert(r == Err::<u64, ProgramErrorCode>(ProgramErrorCode::StakerNotFound));
            }
        }
        let c = choose|c: int| 0 <= c < old.stakes@.len() && #[trigger] old.stakes@[c].staker == staker;
        assert(new.stakes@ == old.stakes@.update(c, drained(old.stakes@[c])));
        assert forall|i: int| 0 <= i < old.stakes@.len() implies #[trigger] new.stakes@[i].earnings
            == if old.stakes@[i].staker == staker {
            0
        } else {
            old.stakes@[i].earnings as int
        } by {
            if old.stakes@[i].staker == staker {
                assert(new.stakes@ == old.stakes@.update(i, drained(old.stakes@[i])));
            }
        }
    }
}

/// Across any run of steps that each keep lifetime earnings, no staker's
/// lifetime earnings ever go down, however far apart two states are.
pub proof fn lifetime_earnings_monotone(states: Seq<Seq<Stake>>, from: int, to: int, i: int)
    requires
        0 <= from <= to < states.len(),
        0 <= i < states[from].len(),
        forall|k: int| 0 <= k < states.len() - 1 ==> lifetime_kept(#[trigger] states[k], states[k + 1]),
    ensures
        i < states[to].len(),
        states[to][i].staker == states[from][i].staker,
        states[to][i].total_earning >= states[from][i].total_earning,
    decreases to - from,
{
    if from < to {
        lifetime_earnings_monotone(states, from, to - 1, i);
        assert(lifetime_kept(states[to - 1], states[to]));
    }
}

} // verus!
