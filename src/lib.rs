//! Settlement and staking engine for a marketplace of serialized books:
//! chapter and full-book purchases, a three-way revenue split, and a pool that
//! pays stakers in proportion to their stake.

pub mod accrual;
pub mod catalog;
pub mod config;
pub mod errors;
pub mod laws;
pub mod purchase;
pub mod split;
pub mod staking;
pub mod state;

pub use config::{
    Config, AUTHOR_PERCENT, MAX_CHAPTERS, MAX_CHAPTER_PRICE, MAX_STAKERS, MAX_STAKE_AMOUNT,
    PERCENT_BASE, STAKE_PERCENT,
};
pub use accrual::distribute_stakers_share;
pub use catalog::{add_book, add_chapter, ChapterInput};
pub use errors::ProgramErrorCode;
pub use purchase::{
    calculate_shares, determine_purchase_type, process_purchase, purchase_chapter,
    purchase_full_book, update_book_state, validate_purchase, PurchaseType, Settlement, Target,
};
pub use split::{split_price, Shares};
pub use staking::{claim_staker_earnings, stake_on_book};
pub use state::{is_well_formed, Book, Chapter, MetaData, Pubkey, Stake};
