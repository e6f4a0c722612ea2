use openshelf::{is_well_formed, Book, Chapter, MetaData, Pubkey, Stake};

fn key(b: u8) -> Pubkey {
    Pubkey::new([b; 32])
}

fn book() -> Book {
    Book {
        author: key(1),
        title: "A Book".to_string(),
        metadata: MetaData {
            description: "About things".to_string(),
            publish_date: 0,
            genre: "Essay".to_string(),
            image_url: "https://books.example/cover.png".to_string(),
        },
        full_book_price: 300,
        total_stake: 30,
        chapters: vec![
            Chapter { price: 100, url: "u0".to_string(), name: "n0".to_string(), index: 0, readers: vec![] },
            Chapter { price: 200, url: "u1".to_string(), name: "n1".to_string(), index: 1, readers: vec![] },
        ],
        stakes: vec![
            Stake { staker: key(2), amount: 10, earnings: 1, total_earning: 2 },
            Stake { staker: key(3), amount: 20, earnings: 0, total_earning: 0 },
        ],
        readers: vec![key(2), key(3)],
    }
}

#[test]
fn well_formed_book_is_recognised() {
    assert!(is_well_formed(&book()));
}

#[test]
fn broken_books_are_recognised() {
    let mut b = book();
    b.chapters[1].index = 2;
    assert!(!is_well_formed(&b));
    let mut b = book();
    b.full_book_price = 299;
    assert!(!is_well_formed(&b));
    let mut b = book();
    b.total_stake = 31;
    assert!(!is_well_formed(&b));
    let mut b = book();
    b.stakes[1].staker = key(2);
    assert!(!is_well_formed(&b));
    let mut b = book();
    b.stakes[0].earnings = 3;
    assert!(!is_well_formed(&b));
    let mut b = book();
    b.stakes[1].amount = 0;
    b.total_stake = 10;
    assert!(!is_well_formed(&b));
    let mut b = book();
    b.chapters[1].price = u64::MAX;
    assert!(!is_well_formed(&b));
}
