use vstd::prelude::*;
use crate::accrual::same_but_stakes;
use crate::config::Config;
use crate::errors::ProgramErrorCode;
use crate::state::{has_staker, sum_amounts, Book, Pubkey, Stake};

verus! {

/// `s` with `amount` more principal.
pub open spec fn topped_up(s: Stake, amount: u64) -> Stake {
    Stake {
        staker: s.staker,
        amount: (s.amount + amount) as u64,
        earnings: s.earnings,
        total_earning: s.total_earning,
    }
}

/// `s` with its claimable earnings paid out.
pub open spec fn drained(s: Stake) -> Stake {
    Stake { staker: s.staker, amount: s.amount, earnings: 0, total_earning: s.total_earning }
}

/// The first reason a deposit of `amount` by `staker` is refused.
pub open spec fn stake_error(
    book: Book,
    cfg: Config,
    staker: Pubkey,
    amount: u64,
    staker_balance: u64,
) -> Option<ProgramErrorCode> {
    if amount == 0 {
        Some(ProgramErrorCode::InvalidStakeAmount)
    } else if amount > cfg.max_stake_amount {
        Some(ProgramErrorCode::StakeAmountTooHigh)
    } else if !book.readers@.contains(staker) {
        Some(ProgramErrorCode::NotQualifiedForStaking)
    } else if staker_balance < amount {
        Some(ProgramErrorCode::InsufficientFunds)
    } else if !has_staker(book.stakes@, staker) && book.stakes@.len() >= cfg.max_stakers {
        Some(ProgramErrorCode::MaxStakersReached)
    } else if book.total_stake + amount > u64::MAX {
        Some(ProgramErrorCode::ArithmeticOverflow)
    } else {
        None
    }
}

/// Everything but the stakes and the total stake is the same.
pub open spec fn same_but_pool(a: Book, b: Book) -> bool {
    &&& a.author == b.author
    &&& a.title == b.title
    &&& a.metadata == b.metadata
    &&& a.full_book_price == b.full_book_price
    &&& a.chapters == b.chapters
    &&& a.readers == b.readers
}

/// The whole contract of a deposit: refused exactly when `stake_error`
/// names a reason, and then nothing changes; otherwise the principal is added
/// to the staker's existing stake, or opens a new one, and to the total.
pub open spec fn stake_outcome(
    old: Book,
    new: Book,
    cfg: Config,
    staker: Pubkey,
    amount: u64,
    staker_balance: u64,
    r: Result<(), ProgramErrorCode>,
) -> bool {
    &&& r == match stake_error(old, cfg, staker, amount, staker_balance) {
        Some(e) => Err::<(), ProgramErrorCode>(e),
        None => Ok(()),
    }
    &&& r.is_err() ==> new == old
    &&& r.is_ok() ==> {
        &&& new.total_stake == old.total_stake + amount
        &&& forall|i: int|
            0 <= i < old.stakes@.len() && #[trigger] old.stakes@[i].staker == staker
                ==> new.stakes@ == old.stakes@.update(i, topped_up(old.stakes@[i], amount))
        &&& !has_staker(old.stakes@, staker) ==> new.stakes@ == old.stakes@.push(
            Stake { staker, amount, earnings: 0, total_earning: 0 },
        )
        &&& same_but_pool(old, new)
        &&& new.wf()
    }
}

/// Where `staker` is found in `stakes`.
pub fn find_stake(stakes: &Vec<Stake>, staker: &Pubkey) -> (r: Option<usize>)
    ensures
        match r {
            Some(i) => i < stakes@.len() && stakes@[i as int].staker == *staker,
            None => !has_staker(stakes@, *staker),
        },
{
    let mut i: usize = 0;
    while i < stakes.len()
        invariant
            i <= stakes@.len(),
            forall|j: int| 0 <= j < i ==> #[trigger] stakes@[j].staker != *staker,
        decreases stakes@.len() - i,
    {
        if stakes[i].staker == *staker {
            return Some(i);
        }
        i = i + 1;
    }
    None
}

proof fn lemma_sum_amounts_update(s: Seq<Stake>, i: int, v: Stake)
    requires
        0 <= i < s.len(),
    ensures
        sum_amounts(s.update(i, v)) == sum_amounts(s) - s[i].amount + v.amount,
        s[i].amount <= sum_amounts(s),
    decreases s.len(),
{
    let n = s.len() - 1;
    if i == n {
        assert(s.update(i, v).drop_last() =~= s.drop_last());
    } else {
        assert(s.update(i, v).drop_last() =~= s.drop_last().update(i, v));
        lemma_sum_amounts_update(s.drop_last(), i, v);
    }
    lemma_sum_amounts_nonneg(s.drop_last());
}

proof fn lemma_sum_amounts_nonneg(s: Seq<Stake>)
    ensures
        sum_amounts(s) >= 0,
    decreases s.len(),
{
    if s.len() > 0 {
        lemma_sum_amounts_nonneg(s.drop_last());
    }
}

/// Deposits `amount` from `staker`, who can spend `staker_balance`, into the
/// book's pool: an existing stake grows in place, a first deposit opens a
/// new one. Only full-book readers may stake. A refused deposit changes
/// nothing.
pub fn stake_on_book(
    book: &mut Book,
    cfg: &Config,
    staker: &Pubkey,
    amount: u64,
    staker_balance: u64,
) -> (r: Result<(), ProgramErrorCode>)
    requires
        old(book).wf(),
    ensures
        stake_outcome(*old(book), *final(book), *cfg, *staker, amount, staker_balance, r),
{
    if amount == 0 {
        return Err(ProgramErrorCode::InvalidStakeAmount);
    }
    if amount > cfg.max_stake_amount {
        return Err(ProgramErrorCode::StakeAmountTooHigh);
    }
    if !crate::state::has_key(&book.readers, staker) {
        return Err(ProgramErrorCode::NotQualifiedForStaking);
    }
    if staker_balance < amount {
        return Err(ProgramErrorCode::InsufficientFunds);
    }
    let found = find_stake(&book.stakes, staker);
    if found.is_none() && book.stakes.len() >= cfg.max_stakers {
        return Err(ProgramErrorCode::MaxStakersReached);
    }
    if book.total_stake > u64::MAX - amount {
        proof {
            if let Some(i) = found {
                assert(has_staker(book.stakes@, *staker)) by {
                    assert(book.stakes@[i as int].staker == *staker);
                }
            }
        }
        return Err(ProgramErrorCode::ArithmeticOverflow);
    }
    let ghost start = *book;
    match found {
        Some(i) => {
            let mut s = book.stakes[i];
            proof {
                lemma_sum_amounts_update(start.stakes@, i as int, topped_up(s, amount));
            }
            s.amount = s.amount + amount;
            book.stakes.set(i, s);
            proof {
                assert(s == topped_up(start.stakes@[i as int], amount));
                assert forall|m: int|
                    0 <= m < start.stakes@.len() && #[trigger] start.stakes@[m].staker
                        == *staker implies book.stakes@ == start.stakes@.update(
                    m,
                    topped_up(start.stakes@[m], amount),
                ) by {
                    if m != i {
                        assert(start.stakes@[m].staker != start.stakes@[i as int].staker);
                    }
                }
                assert(has_staker(start.stakes@, *staker)) by {
                    assert(start.stakes@[i as int].staker == *staker);
                }
            }
        },
        None => {
            book.stakes.push(Stake { staker: *staker, amount, earnings: 0, total_earning: 0 });
            proof {
                assert(book.stakes@.drop_last() =~= start.stakes@);
            }
        },
    }
    book.total_stake = book.total_stake + amount;
    Ok(())
}

/// The first reason a claim by `staker` is refused, when the pool holds
/// `pool_balance`.
pub open spec fn claim_error(book: Book, staker: Pubkey, pool_balance: u64) -> Option<
    ProgramErrorCode,
> {
    if !has_staker(book.stakes@, staker) {
        Some(ProgramErrorCode::StakerNotFound)
    } else {
        let i = choose|i: int| 0 <= i < book.stakes@.len() && book.stakes@[i].staker == staker;
        if book.stakes@[i].earnings == 0 {
            Some(ProgramErrorCode::NoEarningsToClaim)
        } else if pool_balance < book.stakes@[i].earnings {
            Some(ProgramErrorCode::InsufficientFunds)
        } else {
            None
        }
    }
}

/// The whole contract of a claim: refused exactly when `claim_error` names
/// a reason, and then nothing changes; otherwise the staker's claimable
/// earnings are returned and reset to zero, and nothing else changes.
pub open spec fn claim_outcome(
    old: Book,
    new: Book,
    staker: Pubkey,
    pool_balance: u64,
    r: Result<u64, ProgramErrorCode>,
) -> bool {
    &&& match claim_error(old, staker, pool_balance) {
        Some(e) => r == Err::<u64, ProgramErrorCode>(e),
        None => r.is_ok(),
    }
    &&& r.is_err() ==> new == old
    &&& forall|i: int|
        0 <= i < old.stakes@.len() && #[trigger] old.stakes@[i].staker == staker ==> (r.is_ok()
            ==> {
            &&& r == Ok::<u64, ProgramErrorCode>(old.stakes@[i].earnings)
            &&& new.stakes@ == old.stakes@.update(i, drained(old.stakes@[i]))
        })
    &&& r.is_ok() ==> same_but_stakes(old, new) && new.wf()
}

/// Pays out `staker`'s claimable earnings from a pool that holds
/// `pool_balance`: returns the amount and resets the claimable earnings to
/// zero. Lifetime earnings are kept. A refused claim changes nothing.
pub fn claim_staker_earnings(book: &mut Book, staker: &Pubkey, pool_balance: u64) -> (r: Result<
    u64,
    ProgramErrorCode,
>)
    requires
        old(book).wf(),
    ensures
        claim_outcome(*old(book), *final(book), *staker, pool_balance, r),
{
    let ghost start = *book;
    let i = match find_stake(&book.stakes, staker) {
        Some(i) => i,
        None => {
            return Err(ProgramErrorCode::StakerNotFound);
        },
    };
    proof {
        assert(has_staker(start.stakes@, *staker)) by {
            assert(start.stakes@[i as int].staker == *staker);
        }
        let c = choose|c: int|
            0 <= c < start.stakes@.len() && start.stakes@[c].staker == *staker;
        if c != i {
            if c < i {
                assert(start.stakes@[c].staker != start.stakes@[i as int].staker);
            } else {
                assert(start.stakes@[i as int].staker != start.stakes@[c].staker);
            }
        }
    }
    let mut s = book.stakes[i];
    let earnings = s.earnings;
    if earnings == 0 {
        return Err(ProgramErrorCode::NoEarningsToClaim);
    }
    if pool_balance < earnings {
        return Err(ProgramErrorCode::InsufficientFunds);
    }
    s.earnings = 0;
    book.stakes.set(i, s);
    proof {
        assert(s == drained(start.stakes@[i as int]));
        assert forall|m: int|
            0 <= m < start.stakes@.len() && #[trigger] start.stakes@[m].staker
                == *staker implies m == i by {
            if m < i {
                assert(start.stakes@[m].staker != start.stakes@[i as int].staker);
            } else if m > i {
                assert(start.stakes@[i as int].staker != start.stakes@[m].staker);
            }
        }
        lemma_sum_amounts_update(start.stakes@, i as int, s);
        assert forall|a: int, b: int|
            0 <= a < b < book.stakes@.len() implies #[trigger] book.stakes@[a].staker
            != #[trigger] book.stakes@[b].staker by {
            assert(start.stakes@[a].staker != start.stakes@[b].staker);
        }
        assert forall|a: int| 0 <= a < book.stakes@.len() implies {
            &&& #[trigger] book.stakes@[a].amount > 0
            &&& book.stakes@[a].earnings <= book.stakes@[a].total_earning
        } by {
            assert(start.stakes@[a].amount > 0);
        }
    }
    Ok(earnings)
}

} // verus!
