use openshelf::{add_book, add_chapter, Book, ChapterInput, Config, ProgramErrorCode, Pubkey};

fn key(b: u8) -> Pubkey {
    Pubkey::new([b; 32])
}

fn input(index: u8, price: u64) -> ChapterInput {
    ChapterInput {
        url: format!("https://books.example/{}", index),
        index,
        price,
        name: format!("Chapter {}", index),
    }
}

fn new_book(chapters: Option<Vec<ChapterInput>>) -> Result<Book, ProgramErrorCode> {
    add_book(
        key(1),
        "A Book".to_string(),
        "About things".to_string(),
        "Essay".to_string(),
        "https://books.example/cover.png".to_string(),
        chapters,
        1_700_000_000,
        &Config::standard(),
    )
}

fn text(n: usize) -> String {
    "x".repeat(n)
}

#[test]
fn new_book_orders_chapters_by_index() {
    let book = new_book(Some(vec![input(2, 300), input(0, 100), input(1, 200)])).unwrap();
    assert_eq!(book.author, key(1));
    assert_eq!(book.title, "A Book");
    assert_eq!(book.metadata.publish_date, 1_700_000_000);
    assert_eq!(book.full_book_price, 600);
    assert_eq!(book.total_stake, 0);
    let prices: Vec<u64> = book.chapters.iter().map(|c| c.price).collect();
    assert_eq!(prices, vec![100, 200, 300]);
    for (i, c) in book.chapters.iter().enumerate() {
        assert_eq!(c.index as usize, i);
        assert_eq!(c.name, format!("Chapter {}", i));
        assert!(c.readers.is_empty());
    }
}

#[test]
fn new_book_without_chapters() {
    let book = new_book(None).unwrap();
    assert!(book.chapters.is_empty());
    assert_eq!(book.full_book_price, 0);
    let book = new_book(Some(vec![])).unwrap();
    assert!(book.chapters.is_empty());
}

#[test]
fn new_book_text_checks() {
    let cfg = Config::standard();
    let mk = |t: String, d: String, g: String, i: String| {
        add_book(key(1), t, d, g, i, None, 0, &cfg).err()
    };
    let ok = |n: usize| text(n);
    assert_eq!(mk(ok(0), ok(1), ok(1), ok(1)), Some(ProgramErrorCode::EmptyBookTitle));
    assert_eq!(mk(ok(51), ok(1), ok(1), ok(1)), Some(ProgramErrorCode::BookTitleTooLong));
    assert_eq!(mk(ok(50), ok(0), ok(1), ok(1)), Some(ProgramErrorCode::EmptyBookDescription));
    assert_eq!(mk(ok(50), ok(201), ok(1), ok(1)), Some(ProgramErrorCode::BookDescriptionTooLong));
    assert_eq!(mk(ok(50), ok(200), ok(0), ok(1)), Some(ProgramErrorCode::EmptyBookGenre));
    assert_eq!(mk(ok(50), ok(200), ok(51), ok(1)), Some(ProgramErrorCode::BookGenreTooLong));
    assert_eq!(mk(ok(50), ok(200), ok(50), ok(0)), Some(ProgramErrorCode::EmptyImageUrl));
    assert_eq!(mk(ok(50), ok(200), ok(50), ok(201)), Some(ProgramErrorCode::ImageUrlTooLong));
    assert_eq!(mk(ok(50), ok(200), ok(50), ok(200)), None);
}

#[test]
fn text_limits_count_bytes() {
    let cfg = Config::standard();
    let title = "é".repeat(26);
    assert_eq!(
        add_book(key(1), title, text(1), text(1), text(1), None, 0, &cfg).err(),
        Some(ProgramErrorCode::BookTitleTooLong)
    );
    let title = "é".repeat(25);
    assert!(add_book(key(1), title, text(1), text(1), text(1), None, 0, &cfg).is_ok());
}

#[test]
fn new_book_listing_checks() {
    let too_many: Vec<ChapterInput> = (0..256u32).map(|i| input((i % 256) as u8, 1)).collect();
    assert_eq!(new_book(Some(too_many)).err(), Some(ProgramErrorCode::TooManyChapters));
    assert_eq!(
        new_book(Some(vec![input(0, 1), input(0, 1)])).err(),
        Some(ProgramErrorCode::DuplicateChapterIndex)
    );
    let mut c = input(0, 1);
    c.name = String::new();
    assert_eq!(new_book(Some(vec![c])).err(), Some(ProgramErrorCode::EmptyChapterName));
    let mut c = input(0, 1);
    c.name = text(51);
    assert_eq!(new_book(Some(vec![c])).err(), Some(ProgramErrorCode::ChapterNameTooLong));
    let mut c = input(0, 1);
    c.url = String::new();
    assert_eq!(new_book(Some(vec![c])).err(), Some(ProgramErrorCode::EmptyChapterUrl));
    let mut c = input(0, 1);
    c.url = text(101);
    assert_eq!(new_book(Some(vec![c])).err(), Some(ProgramErrorCode::ChapterUrlTooLong));
    assert_eq!(new_book(Some(vec![input(0, 0)])).err(), Some(ProgramErrorCode::InvalidChapterPrice));
    assert_eq!(
        new_book(Some(vec![input(0, 1_000_000_001)])).err(),
        Some(ProgramErrorCode::ChapterPriceTooHigh)
    );
    assert!(new_book(Some(vec![input(0, 1_000_000_000)])).is_ok());
    assert_eq!(
        new_book(Some(vec![input(0, 1), input(2, 1)])).err(),
        Some(ProgramErrorCode::NonContinuousChapterIndices)
    );
}

#[test]
fn first_bad_entry_decides_the_error() {
    let mut c = input(1, 1);
    c.name = String::new();
    assert_eq!(
        new_book(Some(vec![input(5, 0), c])).err(),
        Some(ProgramErrorCode::InvalidChapterPrice)
    );
}

#[test]
fn new_book_total_overflow_is_refused() {
    let cfg = Config { max_chapter_price: u64::MAX, ..Config::standard() };
    let r = add_book(
        key(1),
        text(1),
        text(1),
        text(1),
        text(1),
        Some(vec![input(0, u64::MAX), input(1, 1)]),
        0,
        &cfg,
    );
    assert_eq!(r.err(), Some(ProgramErrorCode::ArithmeticOverflow));
}

#[test]
fn chapters_append_and_replace() {
    let cfg = Config::standard();
    let mut book = new_book(None).unwrap();
    assert_eq!(add_chapter(&mut book, &cfg, "u0".to_string(), 0, 100, "One".to_string()), Ok(()));
    assert_eq!(add_chapter(&mut book, &cfg, "u1".to_string(), 1, 200, "Two".to_string()), Ok(()));
    assert_eq!(book.full_book_price, 300);
    book.chapters[0].readers.push(key(9));
    assert_eq!(add_chapter(&mut book, &cfg, "u0b".to_string(), 0, 150, "Uno".to_string()), Ok(()));
    assert_eq!(book.chapters.len(), 2);
    assert_eq!(book.chapters[0].price, 150);
    assert_eq!(book.chapters[0].url, "u0b");
    assert_eq!(book.chapters[0].name, "Uno");
    assert_eq!(book.chapters[0].index, 0);
    assert_eq!(book.chapters[0].readers, vec![key(9)]);
    assert_eq!(book.full_book_price, 350);
}

#[test]
fn chapter_checks() {
    let cfg = Config::standard();
    let mut book = new_book(Some(vec![input(0, 100)])).unwrap();
    let before = format!("{:?}", book);
    let add = |b: &mut Book, url: &str, i: u8, p: u64, name: &str| {
        add_chapter(b, &cfg, url.to_string(), i, p, name.to_string())
    };
    assert_eq!(add(&mut book, "u", 2, 1, "n"), Err(ProgramErrorCode::InvalidChapterIndex));
    assert_eq!(add(&mut book, "", 1, 1, "n"), Err(ProgramErrorCode::EmptyChapterUrl));
    assert_eq!(add(&mut book, "u", 1, 1, ""), Err(ProgramErrorCode::EmptyChapterName));
    assert_eq!(
        add(&mut book, "u", 1, 1, &text(101)),
        Err(ProgramErrorCode::ChapterNameTooLong)
    );
    assert_eq!(add(&mut book, "u", 1, 0, "n"), Err(ProgramErrorCode::InvalidChapterPrice));
    assert_eq!(
        add(&mut book, "u", 1, 1_000_000_001, "n"),
        Err(ProgramErrorCode::ChapterPriceTooHigh)
    );
    assert_eq!(format!("{:?}", book), before);
    assert_eq!(add(&mut book, "u", 1, 1, &text(100)), Ok(()));
}

#[test]
fn chapter_limit_is_enforced() {
    let cfg = Config { max_chapters: 1, ..Config::standard() };
    let mut book = new_book(Some(vec![input(0, 100)])).unwrap();
    assert_eq!(
        add_chapter(&mut book, &cfg, "u".to_string(), 1, 1, "n".to_string()),
        Err(ProgramErrorCode::MaxChaptersReached)
    );
}

#[test]
fn chapter_total_overflow_is_refused() {
    let cfg = Config { max_chapter_price: u64::MAX, ..Config::standard() };
    let mut book = new_book(None).unwrap();
    assert_eq!(add_chapter(&mut book, &cfg, "u".to_string(), 0, u64::MAX, "n".to_string()), Ok(()));
    assert_eq!(
        add_chapter(&mut book, &cfg, "u".to_string(), 1, 1, "n".to_string()),
        Err(ProgramErrorCode::ArithmeticOverflow)
    );
    assert_eq!(add_chapter(&mut book, &cfg, "u".to_string(), 0, 5, "n".to_string()), Ok(()));
    assert_eq!(book.full_book_price, 5);
}
