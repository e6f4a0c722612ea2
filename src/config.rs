use vstd::prelude::*;

verus! {

/// Whole percent that a share is expressed against.
pub const PERCENT_BASE: u64 = 100;

pub const AUTHOR_PERCENT: u64 = 70;

pub const STAKE_PERCENT: u64 = 10;

/// Highest price of one chapter, in base units.
pub const MAX_CHAPTER_PRICE: u64 = 1_000_000_000;

/// Highest single stake deposit, in base units.
pub const MAX_STAKE_AMOUNT: u64 = 10_000_000_000;

pub const MAX_STAKERS: usize = 255;

pub const MAX_CHAPTERS: usize = 255;

/// The parameters of the marketplace: the revenue split and the ceilings.
#[derive(Clone, Copy, Debug)]
pub struct Config {
    /// Percent of each price that goes to the author.
    pub author_percent: u64,
    /// Percent of each price that goes to the stakers' pool.
    pub stake_percent: u64,
    pub max_chapter_price: u64,
    pub max_stake_amount: u64,
    pub max_stakers: usize,
    pub max_chapters: usize,
}

impl Config {
    /// The author and pool percents leave a non-negative platform remainder,
    /// and a chapter index fits in a byte.
    pub open spec fn wf(&self) -> bool {
        &&& self.author_percent + self.stake_percent <= PERCENT_BASE
        &&& self.max_chapters <= 255
    }

    /// 70% to the author, 10% to the stakers, the rest to the platform;
    /// at most 255 chapters and 255 stakers.
    pub fn standard() -> (c: Config)
        ensures
            c.wf(),
            c.author_percent == AUTHOR_PERCENT,
            c.stake_percent == STAKE_PERCENT,
            c.max_chapter_price == MAX_CHAPTER_PRICE,
            c.max_stake_amount == MAX_STAKE_AMOUNT,
            c.max_stakers == MAX_STAKERS,
            c.max_chapters == MAX_CHAPTERS,
    {
        Config {
            author_percent: AUTHOR_PERCENT,
            stake_percent: STAKE_PERCENT,
            max_chapter_price: MAX_CHAPTER_PRICE,
            max_stake_amount: MAX_STAKE_AMOUNT,
            max_stakers: MAX_STAKERS,
            max_chapters: MAX_CHAPTERS,
        }
    }
}

} // verus!
