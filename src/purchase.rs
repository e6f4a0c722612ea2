use vstd::prelude::*;
use crate::accrual::{accrual_overflows, accrued, distribute_stakers_share};
use crate::config::Config;
use crate::errors::ProgramErrorCode;
use crate::split::{shares_of, split_price, Shares};
use crate::state::{
    has_key, holds_all, lemma_prefix_prices, lemma_unowned_le_sum, sum_prices, unowned_price, Book,
    Chapter, Pubkey,
};

verus! {

/// What a buyer asks for: one chapter, or every chapter not yet held.
#[derive(Clone, Copy, Debug, PartialEq, Eq, Structural)]
pub enum Target {
    Chapter(u8),
    FullBook,
}

/// The entitlement that a completed purchase is announced as.
#[derive(Clone, Copy, Debug, PartialEq, Eq, Structural)]
pub enum PurchaseType {
    FullBookPurchase,
    ChapterPurchase { chapter_index: u8 },
}

/// What a completed purchase moves from the buyer, and how it is announced.
/// When the book has no stake, the pool's share goes to the platform.
#[derive(Clone, Copy, Debug, PartialEq, Eq, Structural)]
pub struct Settlement {
    pub shares: Shares,
    pub to_author: u64,
    pub to_platform: u64,
    pub to_pool: u64,
    pub purchase_type: PurchaseType,
}

pub open spec fn target_valid(book: Book, target: Target) -> bool {
    match target {
        Target::Chapter(i) => (i as int) < book.chapters@.len(),
        Target::FullBook => true,
    }
}

/// The buyer already has what it asks for: the chapter, or the book.
pub open spec fn already_holds(book: Book, buyer: Pubkey, target: Target) -> bool {
    match target {
        Target::Chapter(i) => book.holds(buyer, i as int),
        Target::FullBook => book.readers@.contains(buyer),
    }
}

/// The chapter's price, or the price of the chapters the buyer lacks.
pub open spec fn target_price(book: Book, buyer: Pubkey, target: Target) -> int {
    match target {
        Target::Chapter(i) => book.chapters@[i as int].price as int,
        Target::FullBook => unowned_price(book.chapters@, buyer),
    }
}

pub open spec fn validation_error(book: Book, buyer: Pubkey, target: Target) -> Option<
    ProgramErrorCode,
> {
    if !target_valid(book, target) {
        Some(ProgramErrorCode::InvalidChapterIndex)
    } else if already_holds(book, buyer, target) {
        Some(ProgramErrorCode::AlreadyPurchased)
    } else {
        None
    }
}

pub open spec fn pricing_error(book: Book, buyer: Pubkey, target: Target) -> Option<
    ProgramErrorCode,
> {
    if !target_valid(book, target) {
        Some(ProgramErrorCode::InvalidChapterIndex)
    } else if target_price(book, buyer, target) == 0 {
        Some(ProgramErrorCode::InvalidPrice)
    } else {
        None
    }
}

/// The first reason a purchase is refused, in the order the checks run.
pub open spec fn purchase_error(
    book: Book,
    cfg: Config,
    buyer: Pubkey,
    target: Target,
    buyer_balance: u64,
) -> Option<ProgramErrorCode> {
    if validation_error(book, buyer, target).is_some() {
        validation_error(book, buyer, target)
    } else if target_price(book, buyer, target) == 0 {
        Some(ProgramErrorCode::InvalidPrice)
    } else if buyer_balance < target_price(book, buyer, target) {
        Some(ProgramErrorCode::InsufficientFunds)
    } else if book.total_stake > 0 && accrual_overflows(
        book.stakes@,
        shares_of(cfg, target_price(book, buyer, target) as u64).stake_share,
        book.total_stake,
    ) {
        Some(ProgramErrorCode::ArithmeticOverflow)
    } else {
        None
    }
}

/// `v` with `k` added unless already there.
pub open spec fn with_reader(v: Seq<Pubkey>, k: Pubkey) -> Seq<Pubkey> {
    if v.contains(k) {
        v
    } else {
        v.push(k)
    }
}

proof fn lemma_with_reader(v: Seq<Pubkey>, k: Pubkey)
    ensures
        with_reader(v, k).contains(k),
        with_reader(with_reader(v, k), k) == with_reader(v, k),
{
    if !v.contains(k) {
        assert(v.push(k)[v.len() as int] == k);
    }
}

/// Chapter `j` is granted by a purchase of `target`.
pub open spec fn gains(target: Target, j: int) -> bool {
    match target {
        Target::Chapter(i) => j == i as int,
        Target::FullBook => true,
    }
}

/// `n` is `o`, with `k` added to its readers when `gain` holds.
pub open spec fn chapter_granted(o: Chapter, n: Chapter, k: Pubkey, gain: bool) -> bool {
    &&& n.price == o.price
    &&& n.url == o.url
    &&& n.name == o.name
    &&& n.index == o.index
    &&& n.readers@ == if gain {
        with_reader(o.readers@, k)
    } else {
        o.readers@
    }
}

/// `new` is `old` after granting `target` to `k`: the chapters it covers gain
/// `k` as reader, and `k` becomes a full-book reader when it bought the book
/// or now holds every chapter.
pub open spec fn entitlements_granted(old: Book, new: Book, k: Pubkey, target: Target) -> bool {
    &&& new.chapters@.len() == old.chapters@.len()
    &&& forall|j: int|
        0 <= j < old.chapters@.len() ==> chapter_granted(
            old.chapters@[j],
            #[trigger] new.chapters@[j],
            k,
            gains(target, j),
        )
    &&& new.readers@ == if target == Target::FullBook || holds_all(new.chapters@, k) {
        with_reader(old.readers@, k)
    } else {
        old.readers@
    }
}

/// Author, title, metadata and stored totals are the same.
pub open spec fn same_catalog(a: Book, b: Book) -> bool {
    &&& a.author == b.author
    &&& a.title == b.title
    &&& a.metadata == b.metadata
    &&& a.full_book_price == b.full_book_price
    &&& a.total_stake == b.total_stake
}

pub open spec fn purchase_type_of(book: Book, buyer: Pubkey, target: Target) -> PurchaseType {
    match target {
        Target::Chapter(i) => if holds_all(book.chapters@, buyer) {
            PurchaseType::FullBookPurchase
        } else {
            PurchaseType::ChapterPurchase { chapter_index: i }
        },
        Target::FullBook => PurchaseType::FullBookPurchase,
    }
}

/// The whole contract of a purchase of `target` by `buyer`: refused exactly
/// when `purchase_error` names a reason, and then nothing changes; otherwise
/// the price is split, the pool share is credited to the stakers (or routed to
/// the platform when there is no stake), the entitlements are granted, and the
/// purchase is announced by its final kind.
pub open spec fn purchase_outcome(
    old: Book,
    new: Book,
    cfg: Config,
    buyer: Pubkey,
    target: Target,
    buyer_balance: u64,
    r: Result<Settlement, ProgramErrorCode>,
) -> bool {
    match r {
        Err(e) => {
            &&& purchase_error(old, cfg, buyer, target, buyer_balance) == Some(e)
            &&& new == old
        },
        Ok(s) => {
            &&& purchase_error(old, cfg, buyer, target, buyer_balance).is_none()
            &&& s.shares == shares_of(cfg, target_price(old, buyer, target) as u64)
            &&& s.to_author == s.shares.author_share
            &&& if old.total_stake > 0 {
                &&& s.to_platform == s.shares.platform_share
                &&& s.to_pool == s.shares.stake_share
                &&& accrued(old.stakes@, new.stakes@, s.shares.stake_share, old.total_stake)
            } else {
                &&& s.to_platform == s.shares.platform_share + s.shares.stake_share
                &&& s.to_pool == 0
                &&& new.stakes == old.stakes
            }
            &&& s.to_author + s.to_platform + s.to_pool == s.shares.price
            &&& entitlements_granted(old, new, buyer, target)
            &&& same_catalog(old, new)
            &&& s.purchase_type == purchase_type_of(new, buyer, target)
            &&& new.wf()
        },
    }
}

/// Refuses an index past the last chapter, and a buyer that already holds
/// the chapter, or the book.
pub fn validate_purchase(book: &Book, buyer: &Pubkey, target: Target) -> (r: Result<
    (),
    ProgramErrorCode,
>)
    ensures
        r == match validation_error(*book, *buyer, target) {
            Some(e) => Err::<(), ProgramErrorCode>(e),
            None => Ok(()),
        },
{
    match target {
        Target::Chapter(i) => {
            if (i as usize) >= book.chapters.len() {
                return Err(ProgramErrorCode::InvalidChapterIndex);
            }
            if has_key(&book.chapters[i as usize].readers, buyer) {
                return Err(ProgramErrorCode::AlreadyPurchased);
            }
        },
        Target::FullBook => {
            if has_key(&book.readers, buyer) {
                return Err(ProgramErrorCode::AlreadyPurchased);
            }
        },
    }
    Ok(())
}

fn unowned_total(chapters: &Vec<Chapter>, buyer: &Pubkey) -> (r: u64)
    requires
        sum_prices(chapters@) <= u64::MAX,
    ensures
        r == unowned_price(chapters@, *buyer),
{
    let mut total: u64 = 0;
    let mut i: usize = 0;
    while i < chapters.len()
        invariant
            i <= chapters@.len(),
            sum_prices(chapters@) <= u64::MAX,
            total == unowned_price(chapters@.take(i as int), *buyer),
        decreases chapters@.len() - i,
    {
        proof {
            lemma_prefix_prices(chapters@, *buyer, i + 1);
            assert(chapters@.take(i + 1).drop_last() =~= chapters@.take(i as int));
        }
        if !has_key(&chapters[i].readers, buyer) {
            total = total + chapters[i].price;
        }
        i = i + 1;
    }
    proof {
        assert(chapters@.take(i as int) =~= chapters@);
    }
    total
}

/// The price of `target` for `buyer` and its split. A whole-book purchase
/// costs only the chapters the buyer lacks; a price of zero is refused.
pub fn calculate_shares(book: &Book, cfg: &Config, buyer: &Pubkey, target: Target) -> (r: Result<
    Shares,
    ProgramErrorCode,
>)
    requires
        book.wf(),
        cfg.wf(),
    ensures
        r == match pricing_error(*book, *buyer, target) {
            Some(e) => Err::<Shares, ProgramErrorCode>(e),
            None => Ok(shares_of(*cfg, target_price(*book, *buyer, target) as u64)),
        },
{
    let price = match target {
        Target::Chapter(i) => {
            if (i as usize) >= book.chapters.len() {
                return Err(ProgramErrorCode::InvalidChapterIndex);
            }
            book.chapters[i as usize].price
        },
        Target::FullBook => unowned_total(&book.chapters, buyer),
    };
    if price == 0 {
        return Err(ProgramErrorCode::InvalidPrice);
    }
    Ok(split_price(cfg, price))
}

fn grant(ch: &mut Chapter, k: &Pubkey)
    ensures
        chapter_granted(*old(ch), *final(ch), *k, true),
{
    if !has_key(&ch.readers, k) {
        ch.readers.push(*k);
    }
}

/// Whether `k` is a reader of every chapter.
pub fn holds_every_chapter(chapters: &Vec<Chapter>, k: &Pubkey) -> (r: bool)
    ensures
        r == holds_all(chapters@, *k),
{
    let mut i: usize = 0;
    while i < chapters.len()
        invariant
            i <= chapters@.len(),
            forall|j: int| 0 <= j < i ==> #[trigger] chapters@[j].readers@.contains(*k),
        decreases chapters@.len() - i,
    {
        if !has_key(&chapters[i].readers, k) {
            return false;
        }
        i = i + 1;
    }
    true
}

proof fn lemma_same_prices(a: Seq<Chapter>, b: Seq<Chapter>)
    requires
        a.len() == b.len(),
        forall|j: int| 0 <= j < a.len() ==> #[trigger] a[j].price == b[j].price,
    ensures
        sum_prices(a) == sum_prices(b),
    decreases a.len(),
{
    if a.len() > 0 {
        let n = a.len() - 1;
        assert(a[n].price == b[n].price);
        assert forall|j: int| 0 <= j < n implies #[trigger] a.drop_last()[j].price
            == b.drop_last()[j].price by {
            assert(a[j].price == b[j].price);
        }
        lemma_same_prices(a.drop_last(), b.drop_last());
    }
}

/// Records the entitlements that a purchase of `target` grants to `buyer`.
pub fn update_book_state(book: &mut Book, buyer: &Pubkey, target: Target)
    requires
        old(book).wf(),
        target_valid(*old(book), target),
    ensures
        entitlements_granted(*old(book), *final(book), *buyer, target),
        same_catalog(*old(book), *final(book)),
        final(book).stakes == old(book).stakes,
        final(book).wf(),
{
    let ghost start = *book;
    match target {
        Target::Chapter(i) => {
            grant(&mut book.chapters[i as usize], buyer);
        },
        Target::FullBook => {
            if !has_key(&book.readers, buyer) {
                book.readers.push(*buyer);
            }
            let n = book.chapters.len();
            let mut j: usize = 0;
            while j < n
                invariant
                    n == book.chapters@.len(),
                    n == start.chapters@.len(),
                    j <= n,
                    same_catalog(start, *book),
                    book.stakes == start.stakes,
                    book.readers@ == with_reader(start.readers@, *buyer),
                    forall|m: int|
                        0 <= m < j ==> chapter_granted(
                            start.chapters@[m],
                            #[trigger] book.chapters@[m],
                            *buyer,
                            true,
                        ),
                    forall|m: int| j <= m < n ==> #[trigger] book.chapters@[m] == start.chapters@[m],
                decreases n - j,
            {
                grant(&mut book.chapters[j], buyer);
                j = j + 1;
            }
        },
    }
    proof {
        lemma_with_reader(start.readers@, *buyer);
    }
    if holds_every_chapter(&book.chapters, buyer) && !has_key(&book.readers, buyer) {
        book.readers.push(*buyer);
    }
    proof {
        assert forall|j: int| 0 <= j < start.chapters@.len() implies chapter_granted(
            start.chapters@[j],
            #[trigger] book.chapters@[j],
            *buyer,
            gains(target, j),
        ) by {
            if !gains(target, j) {
                assert(book.chapters@[j] == start.chapters@[j]);
            }
        }
        lemma_same_prices(start.chapters@, book.chapters@);
        assert forall|j: int| 0 <= j < book.chapters@.len() implies #[trigger] book.chapters@[j].index
            as int == j by {
            assert(chapter_granted(start.chapters@[j], book.chapters@[j], *buyer, gains(target, j)));
        }
    }
}

/// A purchase of one chapter is announced as a full-book purchase when the
/// buyer now holds every chapter.
pub fn determine_purchase_type(book: &Book, buyer: &Pubkey, target: Target) -> (r: PurchaseType)
    ensures
        r == purchase_type_of(*book, *buyer, target),
{
    match target {
        Target::Chapter(i) => {
            if holds_every_chapter(&book.chapters, buyer) {
                PurchaseType::FullBookPurchase
            } else {
                PurchaseType::ChapterPurchase { chapter_index: i }
            }
        },
        Target::FullBook => PurchaseType::FullBookPurchase,
    }
}

/// Settles a purchase of `target` by `buyer`, who can spend `buyer_balance`:
/// validates it, prices and splits it, credits the stakers, grants the
/// entitlements and reports what must be transferred. A refused purchase
/// changes nothing.
pub fn process_purchase(
    book: &mut Book,
    cfg: &Config,
    buyer: &Pubkey,
    target: Target,
    buyer_balance: u64,
) -> (r: Result<Settlement, ProgramErrorCode>)
    requires
        old(book).wf(),
        cfg.wf(),
    ensures
        purchase_outcome(*old(book), *final(book), *cfg, *buyer, target, buyer_balance, r),
{
    proof {
        crate::split::split_is_exact(*cfg, target_price(*book, *buyer, target) as u64);
        lemma_unowned_le_sum(book.chapters@, *buyer);
    }
    match validate_purchase(book, buyer, target) {
        Ok(()) => {},
        Err(e) => {
            return Err(e);
        },
    }
    let shares = match calculate_shares(book, cfg, buyer, target) {
        Ok(s) => s,
        Err(e) => {
            return Err(e);
        },
    };
    if buyer_balance < shares.price {
        return Err(ProgramErrorCode::InsufficientFunds);
    }
    let ghost start = *book;
    let pool_open = book.total_stake > 0;
    if pool_open {
        match distribute_stakers_share(book, shares.stake_share) {
            Ok(()) => {},
            Err(e) => {
                return Err(e);
            },
        }
    }
    let ghost credited = *book;
    proof {
        assert(target_price(credited, *buyer, target) == target_price(start, *buyer, target)) by {
            assert(credited.chapters == start.chapters);
        }
    }
    update_book_state(book, buyer, target);
    let purchase_type = determine_purchase_type(book, buyer, target);
    let (to_platform, to_pool) = if pool_open {
        (shares.platform_share, shares.stake_share)
    } else {
        (shares.platform_share + shares.stake_share, 0)
    };
    proof {
        assert(entitlements_granted(start, *book, *buyer, target)) by {
            assert(credited.chapters == start.chapters);
            assert(credited.readers == start.readers);
        }
    }
    Ok(
        Settlement {
            shares,
            to_author: shares.author_share,
            to_platform,
            to_pool,
            purchase_type,
        },
    )
}

/// Buys chapter `chapter_index`.
pub fn purchase_chapter(
    book: &mut Book,
    cfg: &Config,
    buyer: &Pubkey,
    chapter_index: u8,
    buyer_balance: u64,
) -> (r: Result<Settlement, ProgramErrorCode>)
    requires
        old(book).wf(),
        cfg.wf(),
    ensures
        purchase_outcome(
            *old(book),
            *final(book),
            *cfg,
            *buyer,
            Target::Chapter(chapter_index),
            buyer_balance,
            r,
        ),
{
    process_purchase(book, cfg, buyer, Target::Chapter(chapter_index), buyer_balance)
}

/// Buys every chapter that `buyer` does not hold yet.
pub fn purchase_full_book(book: &mut Book, cfg: &Config, buyer: &Pubkey, buyer_balance: u64) -> (r:
    Result<Settlement, ProgramErrorCode>)
    requires
        old(book).wf(),
        cfg.wf(),
    ensures
        purchase_outcome(*old(book), *final(book), *cfg, *buyer, Target::FullBook, buyer_balance, r),
{
    process_purchase(book, cfg, buyer, Target::FullBook, buyer_balance)
}

} // verus!
