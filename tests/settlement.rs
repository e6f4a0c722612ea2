use openshelf::{
    calculate_shares, determine_purchase_type, distribute_stakers_share, process_purchase,
    purchase_chapter, purchase_full_book, split_price, update_book_state, validate_purchase, Book,
    Chapter, Config, MetaData, ProgramErrorCode, PurchaseType, Pubkey, Shares, Stake, Target,
};

fn key(b: u8) -> Pubkey {
    Pubkey::new([b; 32])
}

fn chapter(i: u8, price: u64) -> Chapter {
    Chapter {
        price,
        url: format!("https://books.example/{}", i),
        name: format!("Chapter {}", i),
        index: i,
        readers: vec![],
    }
}

fn book_with(prices: &[u64]) -> Book {
    Book {
        author: key(1),
        title: "A Book".to_string(),
        metadata: MetaData {
            description: "About things".to_string(),
            publish_date: 1_700_000_000,
            genre: "Essay".to_string(),
            image_url: "https://books.example/cover.png".to_string(),
        },
        full_book_price: prices.iter().sum(),
        total_stake: 0,
        chapters: prices.iter().enumerate().map(|(i, p)| chapter(i as u8, *p)).collect(),
        stakes: vec![],
        readers: vec![],
    }
}

fn stake(who: u8, amount: u64) -> Stake {
    Stake { staker: key(who), amount, earnings: 0, total_earning: 0 }
}

fn with_stakes(mut book: Book, stakes: Vec<Stake>) -> Book {
    book.total_stake = stakes.iter().map(|s| s.amount).sum();
    book.stakes = stakes;
    book
}

fn snapshot(book: &Book) -> String {
    format!("{:?}", book)
}

#[test]
fn chapter_purchase_without_stakers_routes_pool_share_to_platform() {
    let cfg = Config::standard();
    let mut book = book_with(&[100, 200, 300]);
    let buyer = key(9);
    let s = purchase_chapter(&mut book, &cfg, &buyer, 0, 1_000).unwrap();
    assert_eq!(
        s.shares,
        Shares { price: 100, author_share: 70, stake_share: 10, platform_share: 20 }
    );
    assert_eq!(s.to_author, 70);
    assert_eq!(s.to_platform, 30);
    assert_eq!(s.to_pool, 0);
    assert_eq!(s.purchase_type, PurchaseType::ChapterPurchase { chapter_index: 0 });
    assert_eq!(book.chapters[0].readers, vec![buyer]);
    assert!(book.chapters[1].readers.is_empty());
    assert!(book.chapters[2].readers.is_empty());
    assert!(book.readers.is_empty());
}

#[test]
fn split_adds_up_to_price_exactly() {
    let cfg = Config::standard();
    for price in [1u64, 7, 9, 10, 99, 101, 333, 999_999_999, u64::MAX / 3, u64::MAX] {
        let s = split_price(&cfg, price);
        assert_eq!(s.price, price);
        assert_eq!(s.author_share as u128, price as u128 * 70 / 100);
        assert_eq!(s.stake_share as u128, price as u128 * 10 / 100);
        assert_eq!(
            s.author_share as u128 + s.stake_share as u128 + s.platform_share as u128,
            price as u128
        );
    }
}

#[test]
fn split_of_odd_price_gives_rounding_to_platform() {
    let s = split_price(&Config::standard(), 99);
    assert_eq!(s, Shares { price: 99, author_share: 69, stake_share: 9, platform_share: 21 });
}

#[test]
fn split_follows_configured_percents() {
    let cfg = Config { author_percent: 50, stake_percent: 25, ..Config::standard() };
    let s = split_price(&cfg, 1_000);
    assert_eq!(s, Shares { price: 1_000, author_share: 500, stake_share: 250, platform_share: 250 });
}

#[test]
fn accrual_is_proportional_to_stake() {
    let mut book = with_stakes(book_with(&[100]), vec![stake(2, 1_000), stake(3, 3_000)]);
    assert_eq!(book.total_stake, 4_000);
    assert_eq!(distribute_stakers_share(&mut book, 40), Ok(()));
    assert_eq!(book.stakes[0].earnings, 10);
    assert_eq!(book.stakes[0].total_earning, 10);
    assert_eq!(book.stakes[1].earnings, 30);
    assert_eq!(book.stakes[1].total_earning, 30);
    assert_eq!(book.stakes[0].amount, 1_000);
    assert_eq!(book.total_stake, 4_000);
}

#[test]
fn purchase_credits_stakers_and_fills_pool() {
    let cfg = Config::standard();
    let mut book = with_stakes(book_with(&[400]), vec![stake(2, 1_000), stake(3, 3_000)]);
    let s = purchase_chapter(&mut book, &cfg, &key(9), 0, 400).unwrap();
    assert_eq!(s.to_author, 280);
    assert_eq!(s.to_platform, 80);
    assert_eq!(s.to_pool, 40);
    assert_eq!(book.stakes[0].earnings, 10);
    assert_eq!(book.stakes[1].earnings, 30);
    assert_eq!(s.purchase_type, PurchaseType::FullBookPurchase);
    assert_eq!(book.readers, vec![key(9)]);
}

#[test]
fn accrual_dust_stays_below_staker_count() {
    let mut book = with_stakes(book_with(&[100]), vec![stake(2, 1), stake(3, 1), stake(4, 1)]);
    assert_eq!(distribute_stakers_share(&mut book, 2), Ok(()));
    let credited: u64 = book.stakes.iter().map(|s| s.earnings).sum();
    assert_eq!(credited, 0);
    assert!(2 - credited <= 2);

    let mut book = with_stakes(book_with(&[100]), vec![stake(2, 1), stake(3, 2)]);
    assert_eq!(distribute_stakers_share(&mut book, 10), Ok(()));
    let credited: u64 = book.stakes.iter().map(|s| s.earnings).sum();
    assert_eq!(book.stakes[0].earnings, 3);
    assert_eq!(book.stakes[1].earnings, 6);
    assert!(credited <= 10);
    assert!(10 - credited <= 1);
}

#[test]
fn accrual_without_stake_is_refused() {
    let mut book = book_with(&[100]);
    let before = snapshot(&book);
    assert_eq!(distribute_stakers_share(&mut book, 10), Err(ProgramErrorCode::NoStakers));
    assert_eq!(snapshot(&book), before);
}

#[test]
fn accrual_overflow_changes_nothing() {
    let mut st = stake(3, 10);
    st.total_earning = u64::MAX - 1;
    st.earnings = 5;
    let mut book = with_stakes(book_with(&[100]), vec![stake(2, 10), st]);
    let before = snapshot(&book);
    assert_eq!(
        distribute_stakers_share(&mut book, 100),
        Err(ProgramErrorCode::ArithmeticOverflow)
    );
    assert_eq!(snapshot(&book), before);
}

#[test]
fn purchase_overflowing_an_earnings_counter_is_refused() {
    let mut st = stake(3, 10);
    st.total_earning = u64::MAX;
    let mut book = with_stakes(book_with(&[100]), vec![st]);
    let before = snapshot(&book);
    assert_eq!(
        purchase_chapter(&mut book, &Config::standard(), &key(9), 0, 100),
        Err(ProgramErrorCode::ArithmeticOverflow)
    );
    assert_eq!(snapshot(&book), before);
}

#[test]
fn repeat_chapter_purchase_is_refused_without_change() {
    let cfg = Config::standard();
    let mut book = book_with(&[100, 200, 300]);
    let buyer = key(9);
    assert!(purchase_chapter(&mut book, &cfg, &buyer, 1, 1_000).is_ok());
    let before = snapshot(&book);
    assert_eq!(
        purchase_chapter(&mut book, &cfg, &buyer, 1, 1_000),
        Err(ProgramErrorCode::AlreadyPurchased)
    );
    assert_eq!(snapshot(&book), before);
    assert_eq!(book.chapters[1].readers, vec![buyer]);
}

#[test]
fn piecemeal_and_full_book_purchases_converge() {
    let cfg = Config::standard();
    let buyer = key(9);

    let mut piecemeal = book_with(&[300, 100, 200]);
    let a = purchase_chapter(&mut piecemeal, &cfg, &buyer, 2, 1_000).unwrap();
    let b = purchase_chapter(&mut piecemeal, &cfg, &buyer, 0, 1_000).unwrap();
    let c = purchase_chapter(&mut piecemeal, &cfg, &buyer, 1, 1_000).unwrap();
    assert_eq!(a.shares.price + b.shares.price + c.shares.price, 600);
    assert_eq!(a.purchase_type, PurchaseType::ChapterPurchase { chapter_index: 2 });
    assert_eq!(b.purchase_type, PurchaseType::ChapterPurchase { chapter_index: 0 });
    assert_eq!(c.purchase_type, PurchaseType::FullBookPurchase);

    let mut whole = book_with(&[300, 100, 200]);
    let f = purchase_full_book(&mut whole, &cfg, &buyer, 1_000).unwrap();
    assert_eq!(f.shares.price, 600);
    assert_eq!(f.purchase_type, PurchaseType::FullBookPurchase);

    for book in [&piecemeal, &whole] {
        assert_eq!(book.readers, vec![buyer]);
        for ch in &book.chapters {
            assert_eq!(ch.readers, vec![buyer]);
        }
    }
}

#[test]
fn full_book_purchase_charges_only_missing_chapters() {
    let cfg = Config::standard();
    let mut book = book_with(&[100, 200, 300]);
    let buyer = key(9);
    purchase_chapter(&mut book, &cfg, &buyer, 1, 1_000).unwrap();
    let s = purchase_full_book(&mut book, &cfg, &buyer, 400).unwrap();
    assert_eq!(s.shares.price, 400);
    assert_eq!(s.shares.author_share, 280);
    assert_eq!(s.to_platform, 120);
    assert_eq!(book.chapters[1].readers, vec![buyer]);
}

#[test]
fn full_book_purchase_by_full_reader_is_refused() {
    let cfg = Config::standard();
    let mut book = book_with(&[100]);
    let buyer = key(9);
    purchase_full_book(&mut book, &cfg, &buyer, 100).unwrap();
    assert_eq!(
        purchase_full_book(&mut book, &cfg, &buyer, 100),
        Err(ProgramErrorCode::AlreadyPurchased)
    );
}

#[test]
fn full_book_purchase_with_nothing_left_to_pay_is_refused() {
    let cfg = Config::standard();
    let mut book = book_with(&[]);
    let before = snapshot(&book);
    assert_eq!(
        purchase_full_book(&mut book, &cfg, &key(9), 100),
        Err(ProgramErrorCode::InvalidPrice)
    );
    assert_eq!(snapshot(&book), before);
}

#[test]
fn purchase_past_last_chapter_is_refused() {
    let mut book = book_with(&[100, 200, 300]);
    let before = snapshot(&book);
    assert_eq!(
        purchase_chapter(&mut book, &Config::standard(), &key(9), 3, 1_000),
        Err(ProgramErrorCode::InvalidChapterIndex)
    );
    assert_eq!(snapshot(&book), before);
}

#[test]
fn purchase_beyond_balance_is_refused() {
    let mut book = book_with(&[100, 200]);
    let before = snapshot(&book);
    assert_eq!(
        purchase_chapter(&mut book, &Config::standard(), &key(9), 0, 99),
        Err(ProgramErrorCode::InsufficientFunds)
    );
    assert_eq!(
        purchase_full_book(&mut book, &Config::standard(), &key(9), 299),
        Err(ProgramErrorCode::InsufficientFunds)
    );
    assert_eq!(snapshot(&book), before);
}

#[test]
fn process_purchase_takes_either_target() {
    let cfg = Config::standard();
    let mut book = book_with(&[100, 200]);
    let s = process_purchase(&mut book, &cfg, &key(9), Target::Chapter(1), 200).unwrap();
    assert_eq!(s.shares.price, 200);
    let s = process_purchase(&mut book, &cfg, &key(9), Target::FullBook, 100).unwrap();
    assert_eq!(s.shares.price, 100);
    assert_eq!(book.readers, vec![key(9)]);
}

#[test]
fn validation_checks_index_then_ownership() {
    let mut book = book_with(&[100, 200]);
    book.chapters[0].readers.push(key(9));
    assert_eq!(validate_purchase(&book, &key(9), Target::Chapter(0)), Err(ProgramErrorCode::AlreadyPurchased));
    assert_eq!(validate_purchase(&book, &key(9), Target::Chapter(1)), Ok(()));
    assert_eq!(validate_purchase(&book, &key(9), Target::Chapter(2)), Err(ProgramErrorCode::InvalidChapterIndex));
    assert_eq!(validate_purchase(&book, &key(9), Target::FullBook), Ok(()));
    book.readers.push(key(9));
    assert_eq!(validate_purchase(&book, &key(9), Target::FullBook), Err(ProgramErrorCode::AlreadyPurchased));
}

#[test]
fn shares_of_full_book_skip_held_chapters() {
    let cfg = Config::standard();
    let mut book = book_with(&[100, 200, 300]);
    book.chapters[2].readers.push(key(9));
    let s = calculate_shares(&book, &cfg, &key(9), Target::FullBook).unwrap();
    assert_eq!(s, Shares { price: 300, author_share: 210, stake_share: 30, platform_share: 60 });
    let s = calculate_shares(&book, &cfg, &key(8), Target::FullBook).unwrap();
    assert_eq!(s.price, 600);
    assert_eq!(
        calculate_shares(&book, &cfg, &key(9), Target::Chapter(5)),
        Err(ProgramErrorCode::InvalidChapterIndex)
    );
}

#[test]
fn entitlement_update_reclassifies_last_chapter() {
    let mut book = book_with(&[100, 200]);
    let buyer = key(9);
    update_book_state(&mut book, &buyer, Target::Chapter(0));
    assert_eq!(
        determine_purchase_type(&book, &buyer, Target::Chapter(0)),
        PurchaseType::ChapterPurchase { chapter_index: 0 }
    );
    assert!(book.readers.is_empty());
    update_book_state(&mut book, &buyer, Target::Chapter(1));
    assert_eq!(determine_purchase_type(&book, &buyer, Target::Chapter(1)), PurchaseType::FullBookPurchase);
    assert_eq!(determine_purchase_type(&book, &buyer, Target::FullBook), PurchaseType::FullBookPurchase);
    assert_eq!(book.readers, vec![buyer]);
    update_book_state(&mut book, &buyer, Target::FullBook);
    assert_eq!(book.readers, vec![buyer]);
    assert_eq!(book.chapters[0].readers, vec![buyer]);
}

#[test]
fn keys_compare_by_every_byte() {
    let mut b = [7u8; 32];
    assert_eq!(Pubkey::new(b), Pubkey::new([7u8; 32]));
    b[31] = 8;
    assert_ne!(Pubkey::new(b), Pubkey::new([7u8; 32]));
    b[31] = 7;
    b[0] = 0;
    assert_ne!(Pubkey::new(b), Pubkey::new([7u8; 32]));
}
