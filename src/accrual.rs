use vstd::prelude::*;
use vstd::arithmetic::div_mod::{lemma_fundamental_div_mod, lemma_mod_pos_bound};
use crate::errors::ProgramErrorCode;
use crate::state::{sum_amounts, sum_earnings, Book, Stake};

verus! {

/// One staker's part of a pool: `floor(amount * pool / total)`.
pub open spec fn staker_share(amount: u64, pool: u64, total: u64) -> int {
    (amount as int * pool as int) / total as int
}

/// What all stakers of a run receive from one pool.
pub open spec fn sum_shares(stakes: Seq<Stake>, pool: u64, total: u64) -> int
    decreases stakes.len(),
{
    if stakes.len() == 0 {
        0
    } else {
        sum_shares(stakes.drop_last(), pool, total) + staker_share(
            stakes.last().amount,
            pool,
            total,
        )
    }
}

/// Crediting some staker's share would push a counter past `u64::MAX`.
pub open spec fn accrual_overflows(stakes: Seq<Stake>, pool: u64, total: u64) -> bool {
    exists|i: int|
        0 <= i < stakes.len() && #[trigger] stakes[i].total_earning + staker_share(
            stakes[i].amount,
            pool,
            total,
        ) > u64::MAX
}

/// `n` is `o` credited `staker_share` of `pool`, in both its claimable and
/// its lifetime earnings.
pub open spec fn credited(o: Stake, n: Stake, pool: u64, total: u64) -> bool {
    &&& n.staker == o.staker
    &&& n.amount == o.amount
    &&& n.earnings == o.earnings + staker_share(o.amount, pool, total)
    &&& n.total_earning == o.total_earning + staker_share(o.amount, pool, total)
}

/// `new` is `old` with each staker credited its share of `pool`.
pub open spec fn accrued(old: Seq<Stake>, new: Seq<Stake>, pool: u64, total: u64) -> bool {
    &&& new.len() == old.len()
    &&& forall|i: int| 0 <= i < old.len() ==> credited(old[i], #[trigger] new[i], pool, total)
}

/// Everything but the stakes is the same.
pub open spec fn same_but_stakes(a: Book, b: Book) -> bool {
    &&& a.author == b.author
    &&& a.title == b.title
    &&& a.metadata == b.metadata
    &&& a.full_book_price == b.full_book_price
    &&& a.total_stake == b.total_stake
    &&& a.chapters == b.chapters
    &&& a.readers == b.readers
}

proof fn lemma_share_bracket(amount: u64, pool: u64, total: u64)
    requires
        total > 0,
    ensures
        0 <= total * staker_share(amount, pool, total) <= amount as int * pool as int,
        amount as int * pool as int - total * staker_share(amount, pool, total) <= total - 1,
        0 <= staker_share(amount, pool, total) <= amount as int * pool as int,
{
    let x = amount as int * pool as int;
    let t = total as int;
    assert(x >= 0) by (nonlinear_arith)
        requires
            x == amount as int * pool as int,
    ;
    lemma_fundamental_div_mod(x, t);
    lemma_mod_pos_bound(x, t);
    assert(x / t >= 0 && x / t <= x) by (nonlinear_arith)
        requires
            x >= 0,
            t > 0,
            x == t * (x / t) + x % t,
            0 <= x % t,
    ;
    assert(t * (x / t) >= 0) by (nonlinear_arith)
        requires
            x / t >= 0,
            t > 0,
    ;
}

proof fn lemma_sum_shares_bracket(stakes: Seq<Stake>, pool: u64, total: u64)
    requires
        total > 0,
    ensures
        0 <= total * sum_shares(stakes, pool, total) <= pool as int * sum_amounts(stakes),
        pool as int * sum_amounts(stakes) - total * sum_shares(stakes, pool, total) <= stakes.len()
            * (total - 1),
        sum_shares(stakes, pool, total) >= 0,
    decreases stakes.len(),
{
    if stakes.len() > 0 {
        let rest = stakes.drop_last();
        let a = stakes.last().amount;
        lemma_sum_shares_bracket(rest, pool, total);
        lemma_share_bracket(a, pool, total);
        let s0 = sum_shares(rest, pool, total);
        let sh = staker_share(a, pool, total);
        let m0 = sum_amounts(rest);
        let t = total as int;
        let p = pool as int;
        assert(t * (s0 + sh) == t * s0 + t * sh) by (nonlinear_arith);
        assert(p * (m0 + a) == p * m0 + p * a) by (nonlinear_arith);
        assert(a as int * p == p * a) by (nonlinear_arith);
        assert((rest.len() + 1) * (t - 1) == rest.len() * (t - 1) + (t - 1)) by (nonlinear_arith);
    }
}

/// For every accrual over a well-formed set of stakes, what the stakers are
/// credited in total is at most the pool, and the undistributed remainder is
/// below the number of stakers.
pub proof fn accrual_never_exceeds_pool(
    old: Seq<Stake>,
    new: Seq<Stake>,
    pool: u64,
    total: u64,
)
    requires
        total > 0,
        total as int == sum_amounts(old),
        accrued(old, new, pool, total),
    ensures
        sum_earnings(new) - sum_earnings(old) == sum_shares(old, pool, total),
        0 <= sum_shares(old, pool, total) <= pool,
        pool - sum_shares(old, pool, total) <= old.len() - 1,
{
    lemma_accrued_earnings(old, new, pool, total);
    lemma_sum_shares_bracket(old, pool, total);
    let s = sum_shares(old, pool, total);
    let t = total as int;
    let p = pool as int;
    let n = old.len() as int;
    assert(s <= p) by (nonlinear_arith)
        requires
            t > 0,
            t * s <= p * t,
    ;
    assert(n >= 1) by {
        if n == 0 {
            assert(sum_amounts(old) == 0);
        }
    }
    assert(p - s < n) by (nonlinear_arith)
        requires
            t > 0,
            n >= 1,
            p * t - t * s <= n * (t - 1),
    ;
}

proof fn lemma_accrued_earnings(old: Seq<Stake>, new: Seq<Stake>, pool: u64, total: u64)
    requires
        accrued(old, new, pool, total),
    ensures
        sum_earnings(new) - sum_earnings(old) == sum_shares(old, pool, total),
    decreases old.len(),
{
    if old.len() > 0 {
        let n = old.len() - 1;
        assert(accrued(old.drop_last(), new.drop_last(), pool, total)) by {
            assert forall|i: int| 0 <= i < n implies credited(
                old.drop_last()[i],
                #[trigger] new.drop_last()[i],
                pool,
                total,
            ) by {
                assert(credited(old[i], new[i], pool, total));
            }
        }
        assert(credited(old[n], new[n], pool, total));
        lemma_accrued_earnings(old.drop_last(), new.drop_last(), pool, total);
    }
}

fn share_for(amount: u64, pool: u64, total: u64) -> (r: u128)
    requires
        total > 0,
    ensures
        r == staker_share(amount, pool, total),
{
    proof {
        lemma_share_bracket(amount, pool, total);
        assert(amount as int * pool as int <= u64::MAX as int * u64::MAX as int) by (
        nonlinear_arith);
    }
    let wide: u128 = (amount as u128) * (pool as u128);
    wide / (total as u128)
}

/// Credits every staker `floor(amount * stake_share / total_stake)`, in
/// storage order. What rounding leaves over stays undistributed in the pool.
/// With no stake in the book it refuses; where some counter would overflow it
/// refuses and changes nothing.
pub fn distribute_stakers_share(book: &mut Book, stake_share: u64) -> (r: Result<
    (),
    ProgramErrorCode,
>)
    requires
        old(book).wf(),
    ensures
        old(book).total_stake == 0 ==> r == Err::<(), ProgramErrorCode>(
            ProgramErrorCode::NoStakers,
        ),
        old(book).total_stake > 0 && accrual_overflows(
            old(book).stakes@,
            stake_share,
            old(book).total_stake,
        ) ==> r == Err::<(), ProgramErrorCode>(ProgramErrorCode::ArithmeticOverflow),
        old(book).total_stake > 0 && !accrual_overflows(
            old(book).stakes@,
            stake_share,
            old(book).total_stake,
        ) ==> r.is_ok(),
        r.is_err() ==> *final(book) == *old(book),
        r.is_ok() ==> {
            &&& old(book).total_stake > 0
            &&& !accrual_overflows(old(book).stakes@, stake_share, old(book).total_stake)
            &&& accrued(old(book).stakes@, final(book).stakes@, stake_share, old(book).total_stake)
            &&& same_but_stakes(*old(book), *final(book))
            &&& final(book).wf()
        },
{
    let total = book.total_stake;
    if total == 0 {
        return Err(ProgramErrorCode::NoStakers);
    }
    let n = book.stakes.len();
    let ghost start = *book;
    let mut i: usize = 0;
    while i < n
        invariant
            *book == start,
            total == start.total_stake,
            n == book.stakes@.len(),
            i <= n,
            total > 0,
            forall|j: int|
                0 <= j < i ==> #[trigger] book.stakes@[j].total_earning + staker_share(
                    book.stakes@[j].amount,
                    stake_share,
                    total,
                ) <= u64::MAX,
        decreases n - i,
    {
        let share = share_for(book.stakes[i].amount, stake_share, total);
        if share > u64::MAX as u128 || (book.stakes[i].total_earning as u128) + share
            > u64::MAX as u128 {
            assert(book.stakes@[i as int].total_earning + staker_share(
                book.stakes@[i as int].amount,
                stake_share,
                total,
            ) > u64::MAX);
            return Err(ProgramErrorCode::ArithmeticOverflow);
        }
        i = i + 1;
    }
    let ghost before = *book;
    let mut i: usize = 0;
    while i < n
        invariant
            n == book.stakes@.len(),
            n == before.stakes@.len(),
            i <= n,
            total > 0,
            total == before.total_stake,
            before.wf(),
            same_but_stakes(before, *book),
            forall|j: int|
                0 <= j < n ==> #[trigger] before.stakes@[j].total_earning + staker_share(
                    before.stakes@[j].amount,
                    stake_share,
                    total,
                ) <= u64::MAX,
            forall|j: int|
                i <= j < n ==> #[trigger] book.stakes@[j] == before.stakes@[j],
            forall|j: int|
                0 <= j < i ==> credited(
                    before.stakes@[j],
                    #[trigger] book.stakes@[j],
                    stake_share,
                    total,
                ),
        decreases n - i,
    {
        let mut s = book.stakes[i];
        let share = share_for(s.amount, stake_share, total) as u64;
        assert(before.stakes@[i as int].total_earning + staker_share(
            before.stakes@[i as int].amount,
            stake_share,
            total,
        ) <= u64::MAX);
        s.earnings = s.earnings + share;
        s.total_earning = s.total_earning + share;
        book.stakes.set(i, s);
        i = i + 1;
    }
    proof {
        lemma_accrued_keeps_wf(before, *book, stake_share, total);
    }
    Ok(())
}

proof fn lemma_accrued_keeps_wf(before: Book, after: Book, pool: u64, total: u64)
    requires
        before.wf(),
        total > 0,
        same_but_stakes(before, after),
        accrued(before.stakes@, after.stakes@, pool, total),
        forall|j: int|
            0 <= j < before.stakes@.len() ==> #[trigger] before.stakes@[j].total_earning
                + staker_share(before.stakes@[j].amount, pool, total) <= u64::MAX,
    ensures
        after.wf(),
{
    lemma_accrued_amounts(before.stakes@, after.stakes@, pool, total);
    assert forall|i: int, j: int|
        0 <= i < j < after.stakes@.len() implies #[trigger] after.stakes@[i].staker
        != #[trigger] after.stakes@[j].staker by {
        assert(credited(before.stakes@[i], after.stakes@[i], pool, total));
        assert(credited(before.stakes@[j], after.stakes@[j], pool, total));
    }
    assert forall|i: int| 0 <= i < after.stakes@.len() implies {
        &&& #[trigger] after.stakes@[i].amount > 0
        &&& after.stakes@[i].earnings <= after.stakes@[i].total_earning
    } by {
        assert(credited(before.stakes@[i], after.stakes@[i], pool, total));
        assert(before.stakes@[i].amount > 0);
    }
}

proof fn lemma_accrued_amounts(old: Seq<Stake>, new: Seq<Stake>, pool: u64, total: u64)
    requires
        accrued(old, new, pool, total),
    ensures
        sum_amounts(new) == sum_amounts(old),
    decreases old.len(),
{
    if old.len() > 0 {
        let n = old.len() - 1;
        assert(accrued(old.drop_last(), new.drop_last(), pool, total)) by {
            assert forall|i: int| 0 <= i < n implies credited(
                old.drop_last()[i],
                #[trigger] new.drop_last()[i],
                pool,
                total,
            ) by {
                assert(credited(old[i], new[i], pool, total));
            }
        }
        assert(credited(old[n], new[n], pool, total));
        lemma_accrued_amounts(old.drop_last(), new.drop_last(), pool, total);
    }
}

} // verus!
