use vstd::prelude::*;
use crate::config::{Config, PERCENT_BASE};

verus! {

/// How one price divides between author, stakers' pool and platform.
#[derive(Clone, Copy, Debug, PartialEq, Eq, Structural)]
pub struct Shares {
    pub price: u64,
    pub author_share: u64,
    pub stake_share: u64,
    pub platform_share: u64,
}

/// `floor(price * percent / 100)`.
pub open spec fn percent_of(price: u64, percent: u64) -> int {
    (price as int * percent as int) / PERCENT_BASE as int
}

/// The split of `price`: the author's and the pool's percent, rounded down,
/// and the platform takes what is left.
pub open spec fn shares_of(cfg: Config, price: u64) -> Shares {
    Shares {
        price,
        author_share: percent_of(price, cfg.author_percent) as u64,
        stake_share: percent_of(price, cfg.stake_percent) as u64,
        platform_share: (price - percent_of(price, cfg.author_percent) - percent_of(
            price,
            cfg.stake_percent,
        )) as u64,
    }
}

proof fn lemma_percents_fit(price: u64, a: u64, b: u64)
    requires
        a + b <= PERCENT_BASE,
    ensures
        0 <= percent_of(price, a) <= price,
        0 <= percent_of(price, b) <= price,
        percent_of(price, a) + percent_of(price, b) <= price,
{
    let p = price as int;
    let x = p * a as int;
    let y = p * b as int;
    assert(x >= 0 && y >= 0) by (nonlinear_arith)
        requires
            p >= 0,
            a >= 0,
            b >= 0,
            x == p * a as int,
            y == p * b as int,
    ;
    assert(x + y <= 100 * p) by (nonlinear_arith)
        requires
            p >= 0,
            a as int + b as int <= 100,
            x == p * a as int,
            y == p * b as int,
    ;
    assert(x / 100 + y / 100 <= p) by (nonlinear_arith)
        requires
            x >= 0,
            y >= 0,
            x + y <= 100 * p,
    ;
    assert(x / 100 >= 0 && y / 100 >= 0) by (nonlinear_arith)
        requires
            x >= 0,
            y >= 0,
    ;
}

/// The three shares of any price add up to the price exactly, and none is
/// negative or truncated.
pub proof fn split_is_exact(cfg: Config, price: u64)
    requires
        cfg.wf(),
    ensures
        shares_of(cfg, price).author_share == percent_of(price, cfg.author_percent),
        shares_of(cfg, price).stake_share == percent_of(price, cfg.stake_percent),
        shares_of(cfg, price).author_share + shares_of(cfg, price).stake_share + shares_of(
            cfg,
            price,
        ).platform_share == price,
{
    lemma_percents_fit(price, cfg.author_percent, cfg.stake_percent);
}

fn percent_share(price: u64, percent: u64) -> (r: u64)
    requires
        percent <= PERCENT_BASE,
    ensures
        r == percent_of(price, percent),
{
    proof {
        lemma_percents_fit(price, percent, 0);
    }
    let wide: u128 = (price as u128) * (percent as u128);
    (wide / (PERCENT_BASE as u128)) as u64
}

/// Splits `price` by the configured percents; the platform's share is the
/// remainder, so nothing is lost to rounding.
pub fn split_price(cfg: &Config, price: u64) -> (s: Shares)
    requires
        cfg.wf(),
    ensures
        s == shares_of(*cfg, price),
        s.author_share + s.stake_share + s.platform_share == price,
{
    proof {
        split_is_exact(*cfg, price);
    }
    let author_share = percent_share(price, cfg.author_percent);
    let stake_share = percent_share(price, cfg.stake_percent);
    let platform_share = price - author_share - stake_share;
    Shares { price, author_share, stake_share, platform_share }
}

} // verus!
