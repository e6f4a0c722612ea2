use vstd::prelude::*;

verus! {

/// Every way an operation on a book can be refused.
#[derive(Clone, Copy, Debug, PartialEq, Eq, Structural)]
pub enum ProgramErrorCode {
    AlreadyPurchased,
    NotQualifiedForStaking,
    InvalidChapterIndex,
    DuplicateChapterIndex,
    InsufficientFunds,
    StakerNotFound,
    NoEarningsToClaim,
    NoChapterAttribute,
    InvalidContextError,
    BookNotPurchased,
    BookAlreadyPublished,
    MaxChaptersReached,
    EmptyChapterUrl,
    EmptyChapterName,
    ChapterNameTooLong,
    InvalidChapterPrice,
    ChapterPriceTooHigh,
    ArithmeticOverflow,
    EmptyBookTitle,
    BookTitleTooLong,
    EmptyBookDescription,
    BookDescriptionTooLong,
    EmptyBookGenre,
    BookGenreTooLong,
    EmptyImageUrl,
    ImageUrlTooLong,
    TooManyChapters,
    ChapterUrlTooLong,
    NonContinuousChapterIndices,
    BookNotPublished,
    InvalidPrice,
    NoStakers,
    InvalidStakeAmount,
    StakeAmountTooHigh,
    MaxStakersReached,
    InvalidTransactionId,
}

} // verus!
