use vstd::prelude::*;
use vstd::utf8::encode_utf8;
use crate::config::Config;
use crate::errors::ProgramErrorCode;
use crate::state::{sum_prices, Book, Chapter, MetaData, Pubkey};

verus! {

pub const MAX_TITLE_LEN: usize = 50;

pub const MAX_DESCRIPTION_LEN: usize = 200;

pub const MAX_GENRE_LEN: usize = 50;

pub const MAX_IMAGE_URL_LEN: usize = 200;

/// Longest chapter name in a book's initial listing.
pub const MAX_LISTED_CHAPTER_NAME_LEN: usize = 50;

/// Longest chapter name when a chapter is added later.
pub const MAX_CHAPTER_NAME_LEN: usize = 100;

pub const MAX_CHAPTER_URL_LEN: usize = 100;

/// A chapter as the author lists it when creating a book.
#[derive(Debug)]
pub struct ChapterInput {
    pub url: String,
    pub index: u8,
    pub price: u64,
    pub name: String,
}

/// Length of a text in UTF-8 bytes.
pub open spec fn byte_len(s: Seq<char>) -> int {
    encode_utf8(s).len() as int
}

/// Length of `s` in UTF-8 bytes.
pub fn text_len(s: &String) -> (r: usize)
    ensures
        r == byte_len(s@),
{
    s.as_str().as_bytes_vec().len()
}

/// Whether `s` is non-empty and at most `max` bytes long; which of the two
/// fails is told apart by the caller.
pub open spec fn text_error(
    s: Seq<char>,
    max: usize,
    empty: ProgramErrorCode,
    too_long: ProgramErrorCode,
) -> Option<ProgramErrorCode> {
    if byte_len(s) == 0 {
        Some(empty)
    } else if byte_len(s) > max {
        Some(too_long)
    } else {
        None
    }
}

fn check_text(s: &String, max: usize, empty: ProgramErrorCode, too_long: ProgramErrorCode) -> (r:
    Result<(), ProgramErrorCode>)
    ensures
        r == match text_error(s@, max, empty, too_long) {
            Some(e) => Err::<(), ProgramErrorCode>(e),
            None => Ok(()),
        },
{
    let n = text_len(s);
    if n == 0 {
        Err(empty)
    } else if n > max {
        Err(too_long)
    } else {
        Ok(())
    }
}

/// Some earlier entry of the listing has the same index as entry `k`.
pub open spec fn duplicate_before(inputs: Seq<ChapterInput>, k: int) -> bool {
    exists|m: int| 0 <= m < k && #[trigger] inputs[m].index == inputs[k].index
}

/// What is wrong with entry `k` of a listing, checked in this order.
pub open spec fn entry_error(inputs: Seq<ChapterInput>, k: int, cfg: Config) -> Option<
    ProgramErrorCode,
> {
    let c = inputs[k];
    if duplicate_before(inputs, k) {
        Some(ProgramErrorCode::DuplicateChapterIndex)
    } else if text_error(
        c.name@,
        MAX_LISTED_CHAPTER_NAME_LEN,
        ProgramErrorCode::EmptyChapterName,
        ProgramErrorCode::ChapterNameTooLong,
    ).is_some() {
        text_error(
            c.name@,
            MAX_LISTED_CHAPTER_NAME_LEN,
            ProgramErrorCode::EmptyChapterName,
            ProgramErrorCode::ChapterNameTooLong,
        )
    } else if text_error(
        c.url@,
        MAX_CHAPTER_URL_LEN,
        ProgramErrorCode::EmptyChapterUrl,
        ProgramErrorCode::ChapterUrlTooLong,
    ).is_some() {
        text_error(
            c.url@,
            MAX_CHAPTER_URL_LEN,
            ProgramErrorCode::EmptyChapterUrl,
            ProgramErrorCode::ChapterUrlTooLong,
        )
    } else if c.price == 0 {
        Some(ProgramErrorCode::InvalidChapterPrice)
    } else if c.price > cfg.max_chapter_price {
        Some(ProgramErrorCode::ChapterPriceTooHigh)
    } else {
        None
    }
}

/// The first error among the first `k` entries of a listing.
pub open spec fn entries_error(inputs: Seq<ChapterInput>, k: int, cfg: Config) -> Option<
    ProgramErrorCode,
>
    decreases k,
{
    if k <= 0 {
        None
    } else if entries_error(inputs, k - 1, cfg).is_some() {
        entries_error(inputs, k - 1, cfg)
    } else {
        entry_error(inputs, k - 1, cfg)
    }
}

/// Some entry of the listing has index `j`.
pub open spec fn names_index(inputs: Seq<ChapterInput>, j: int) -> bool {
    exists|m: int| 0 <= m < inputs.len() && #[trigger] inputs[m].index as int == j
}

/// The entry of the listing with index `j`.
pub open spec fn listed_at(inputs: Seq<ChapterInput>, j: int) -> ChapterInput {
    inputs[choose|m: int| 0 <= m < inputs.len() && #[trigger] inputs[m].index as int == j]
}

/// Total price of the entries with indices below `j`.
pub open spec fn listed_sum(inputs: Seq<ChapterInput>, j: int) -> int
    decreases j,
{
    if j <= 0 {
        0
    } else {
        listed_sum(inputs, j - 1) + listed_at(inputs, j - 1).price
    }
}

/// The first reason a listing of chapters is refused.
pub open spec fn listing_error(inputs: Seq<ChapterInput>, cfg: Config) -> Option<
    ProgramErrorCode,
> {
    if inputs.len() > cfg.max_chapters {
        Some(ProgramErrorCode::TooManyChapters)
    } else if entries_error(inputs, inputs.len() as int, cfg).is_some() {
        entries_error(inputs, inputs.len() as int, cfg)
    } else if exists|j: int| 0 <= j < inputs.len() && !#[trigger] names_index(inputs, j) {
        Some(ProgramErrorCode::NonContinuousChapterIndices)
    } else if listed_sum(inputs, inputs.len() as int) > u64::MAX {
        Some(ProgramErrorCode::ArithmeticOverflow)
    } else {
        None
    }
}

pub open spec fn inputs_of(chapters: Option<Vec<ChapterInput>>) -> Seq<ChapterInput> {
    match chapters {
        Some(v) => v@,
        None => Seq::empty(),
    }
}

/// The first reason a new book is refused.
pub open spec fn book_error(
    title: Seq<char>,
    description: Seq<char>,
    genre: Seq<char>,
    image_url: Seq<char>,
    inputs: Seq<ChapterInput>,
    cfg: Config,
) -> Option<ProgramErrorCode> {
    if text_error(
        title,
        MAX_TITLE_LEN,
        ProgramErrorCode::EmptyBookTitle,
        ProgramErrorCode::BookTitleTooLong,
    ).is_some() {
        text_error(
            title,
            MAX_TITLE_LEN,
            ProgramErrorCode::EmptyBookTitle,
            ProgramErrorCode::BookTitleTooLong,
        )
    } else if text_error(
        description,
        MAX_DESCRIPTION_LEN,
        ProgramErrorCode::EmptyBookDescription,
        ProgramErrorCode::BookDescriptionTooLong,
    ).is_some() {
        text_error(
            description,
            MAX_DESCRIPTION_LEN,
            ProgramErrorCode::EmptyBookDescription,
            ProgramErrorCode::BookDescriptionTooLong,
        )
    } else if text_error(
        genre,
        MAX_GENRE_LEN,
        ProgramErrorCode::EmptyBookGenre,
        ProgramErrorCode::BookGenreTooLong,
    ).is_some() {
        text_error(
            genre,
            MAX_GENRE_LEN,
            ProgramErrorCode::EmptyBookGenre,
            ProgramErrorCode::BookGenreTooLong,
        )
    } else if text_error(
        image_url,
        MAX_IMAGE_URL_LEN,
        ProgramErrorCode::EmptyImageUrl,
        ProgramErrorCode::ImageUrlTooLong,
    ).is_some() {
        text_error(
            image_url,
            MAX_IMAGE_URL_LEN,
            ProgramErrorCode::EmptyImageUrl,
            ProgramErrorCode::ImageUrlTooLong,
        )
    } else {
        listing_error(inputs, cfg)
    }
}

/// `ch` is the listed chapter `c`, with no readers yet.
pub open spec fn from_input(c: ChapterInput, ch: Chapter) -> bool {
    &&& ch.price == c.price
    &&& ch.url == c.url
    &&& ch.name == c.name
    &&& ch.index == c.index
    &&& ch.readers@ == Seq::<Pubkey>::empty()
}

fn find_listed(inputs: &Vec<ChapterInput>, j: usize) -> (r: Option<usize>)
    ensures
        match r {
            Some(m) => m < inputs@.len() && inputs@[m as int].index as int == j,
            None => !names_index(inputs@, j as int),
        },
{
    let mut m: usize = 0;
    while m < inputs.len()
        invariant
            m <= inputs@.len(),
            forall|a: int| 0 <= a < m ==> #[trigger] inputs@[a].index as int != j,
        decreases inputs@.len() - m,
    {
        if inputs[m].index as usize == j {
            return Some(m);
        }
        m = m + 1;
    }
    None
}

fn check_entry(inputs: &Vec<ChapterInput>, k: usize, cfg: &Config) -> (r: Result<
    (),
    ProgramErrorCode,
>)
    requires
        k < inputs@.len(),
    ensures
        r == match entry_error(inputs@, k as int, *cfg) {
            Some(e) => Err::<(), ProgramErrorCode>(e),
            None => Ok(()),
        },
{
    let mut m: usize = 0;
    while m < k
        invariant
            k < inputs@.len(),
            m <= k,
            forall|a: int| 0 <= a < m ==> #[trigger] inputs@[a].index != inputs@[k as int].index,
        decreases k - m,
    {
        if inputs[m].index == inputs[k].index {
            return Err(ProgramErrorCode::DuplicateChapterIndex);
        }
        m = m + 1;
    }
    let c = &inputs[k];
    match check_text(
        &c.name,
        MAX_LISTED_CHAPTER_NAME_LEN,
        ProgramErrorCode::EmptyChapterName,
        ProgramErrorCode::ChapterNameTooLong,
    ) {
        Ok(()) => {},
        Err(e) => {
            return Err(e);
        },
    }
    match check_text(
        &c.url,
        MAX_CHAPTER_URL_LEN,
        ProgramErrorCode::EmptyChapterUrl,
        ProgramErrorCode::ChapterUrlTooLong,
    ) {
        Ok(()) => {},
        Err(e) => {
            return Err(e);
        },
    }
    if c.price == 0 {
        return Err(ProgramErrorCode::InvalidChapterPrice);
    }
    if c.price > cfg.max_chapter_price {
        return Err(ProgramErrorCode::ChapterPriceTooHigh);
    }
    Ok(())
}

/// Turns a listing into the chapters of a new book, in index order.
fn build_chapters(inputs: &Vec<ChapterInput>, cfg: &Config) -> (r: Result<
    (Vec<Chapter>, u64),
    ProgramErrorCode,
>)
    requires
        cfg.wf(),
    ensures
        match listing_error(inputs@, *cfg) {
            Some(e) => r == Err::<(Vec<Chapter>, u64), ProgramErrorCode>(e),
            None => r is Ok,
        },
        r is Ok ==> {
            let (chs, total) = r->Ok_0;
            &&& listing_error(inputs@, *cfg).is_none()
            &&& chs@.len() == inputs@.len()
            &&& forall|j: int|
                0 <= j < chs@.len() ==> from_input(listed_at(inputs@, j), #[trigger] chs@[j])
            &&& forall|j: int| 0 <= j < chs@.len() ==> #[trigger] chs@[j].index as int == j
            &&& total as int == sum_prices(chs@)
        },
{
    let n = inputs.len();
    if n > cfg.max_chapters {
        return Err(ProgramErrorCode::TooManyChapters);
    }
    let mut k: usize = 0;
    while k < n
        invariant
            n == inputs@.len(),
            n <= cfg.max_chapters,
            cfg.wf(),
            k <= n,
            entries_error(inputs@, k as int, *cfg).is_none(),
        decreases n - k,
    {
        match check_entry(inputs, k, cfg) {
            Ok(()) => {},
            Err(e) => {
                proof {
                    lemma_first_error_sticks(inputs@, *cfg, k as int + 1, n as int);
                }
                return Err(e);
            },
        }
        k = k + 1;
    }
    proof {
        lemma_no_entry_errors(inputs@, *cfg, n as int);
    }
    let mut j: usize = 0;
    while j < n
        invariant
            n == inputs@.len(),
            n <= cfg.max_chapters,
            cfg.wf(),
            j <= n,
            entries_error(inputs@, n as int, *cfg).is_none(),
            forall|i: int| 0 <= i < j ==> #[trigger] names_index(inputs@, i),
        decreases n - j,
    {
        if find_listed(inputs, j).is_none() {
            assert(!names_index(inputs@, j as int));
            return Err(ProgramErrorCode::NonContinuousChapterIndices);
        }
        j = j + 1;
    }
    let mut chs: Vec<Chapter> = Vec::new();
    let mut total: u64 = 0;
    let mut j: usize = 0;
    while j < n
        invariant
            n == inputs@.len(),
            n <= cfg.max_chapters,
            cfg.wf(),
            n <= 255,
            j <= n,
            chs@.len() == j,
            entries_error(inputs@, n as int, *cfg).is_none(),
            forall|i: int| 0 <= i < n ==> #[trigger] names_index(inputs@, i),
            forall|a: int, b: int|
                0 <= a < b < n ==> #[trigger] inputs@[a].index != #[trigger] inputs@[b].index,
            forall|i: int| 0 <= i < j ==> from_input(listed_at(inputs@, i), #[trigger] chs@[i]),
            forall|i: int| 0 <= i < j ==> #[trigger] chs@[i].index as int == i,
            total as int == sum_prices(chs@),
            total as int == listed_sum(inputs@, j as int),
        decreases n - j,
    {
        let m = match find_listed(inputs, j) {
            Some(m) => m,
            None => {
                assert(names_index(inputs@, j as int));
                return Err(ProgramErrorCode::NonContinuousChapterIndices);
            },
        };
        proof {
            assert(names_index(inputs@, j as int));
            let c = choose|c: int| 0 <= c < inputs@.len() && #[trigger] inputs@[c].index as int == j;
            if c < m {
                assert(inputs@[c].index != inputs@[m as int].index);
            } else if c > m {
                assert(inputs@[m as int].index != inputs@[c].index);
            }
        }
        let c = &inputs[m];
        if total > u64::MAX - c.price {
            proof {
                assert(listed_sum(inputs@, j as int + 1) == listed_sum(inputs@, j as int)
                    + c.price);
                lemma_listed_sum_grows(inputs@, j as int + 1, n as int);
            }
            return Err(ProgramErrorCode::ArithmeticOverflow);
        }
        total = total + c.price;
        let ch = Chapter {
            price: c.price,
            url: c.url.clone(),
            name: c.name.clone(),
            index: j as u8,
            readers: Vec::new(),
        };
        let ghost before = chs@;
        chs.push(ch);
        proof {
            assert(chs@.drop_last() =~= before);
        }
        j = j + 1;
    }
    Ok((chs, total))
}

proof fn lemma_first_error_sticks(inputs: Seq<ChapterInput>, cfg: Config, k: int, n: int)
    requires
        0 <= k <= n,
        entries_error(inputs, k, cfg).is_some(),
    ensures
        entries_error(inputs, n, cfg) == entries_error(inputs, k, cfg),
    decreases n - k,
{
    if k < n {
        lemma_first_error_sticks(inputs, cfg, k, n - 1);
    }
}

proof fn lemma_listed_sum_grows(inputs: Seq<ChapterInput>, j: int, n: int)
    requires
        0 <= j <= n,
    ensures
        listed_sum(inputs, j) <= listed_sum(inputs, n),
    decreases n - j,
{
    if j < n {
        lemma_listed_sum_grows(inputs, j + 1, n);
    }
}

proof fn lemma_no_entry_errors(inputs: Seq<ChapterInput>, cfg: Config, k: int)
    requires
        0 <= k <= inputs.len(),
        entries_error(inputs, k, cfg).is_none(),
    ensures
        forall|a: int, b: int|
            0 <= a < b < k ==> #[trigger] inputs[a].index != #[trigger] inputs[b].index,
    decreases k,
{
    if k > 0 {
        lemma_no_entry_errors(inputs, cfg, k - 1);
        assert(!duplicate_before(inputs, k - 1));
    }
}

/// Creates a book by `author` with its descriptive data and, optionally, an
/// initial listing of chapters, which may come in any order but must use
/// each index from 0 up exactly once.
pub fn add_book(
    author: Pubkey,
    title: String,
    description: String,
    genre: String,
    image_url: String,
    chapters: Option<Vec<ChapterInput>>,
    publish_date: i64,
    cfg: &Config,
) -> (r: Result<Book, ProgramErrorCode>)
    requires
        cfg.wf(),
    ensures
        match book_error(title@, description@, genre@, image_url@, inputs_of(chapters), *cfg) {
            Some(e) => r == Err::<Book, ProgramErrorCode>(e),
            None => r.is_ok(),
        },
        r is Ok ==> {
            let b = r->Ok_0;
            &&& b.author == author
            &&& b.title == title
            &&& b.metadata.description == description
            &&& b.metadata.publish_date == publish_date
            &&& b.metadata.genre == genre
            &&& b.metadata.image_url == image_url
            &&& b.total_stake == 0
            &&& b.stakes@.len() == 0
            &&& b.readers@.len() == 0
            &&& b.chapters@.len() == inputs_of(chapters).len()
            &&& forall|j: int|
                0 <= j < b.chapters@.len() ==> from_input(
                    listed_at(inputs_of(chapters), j),
                    #[trigger] b.chapters@[j],
                )
            &&& b.wf()
        },
{
    match check_text(
        &title,
        MAX_TITLE_LEN,
        ProgramErrorCode::EmptyBookTitle,
        ProgramErrorCode::BookTitleTooLong,
    ) {
        Ok(()) => {},
        Err(e) => {
            return Err(e);
        },
    }
    match check_text(
        &description,
        MAX_DESCRIPTION_LEN,
        ProgramErrorCode::EmptyBookDescription,
        ProgramErrorCode::BookDescriptionTooLong,
    ) {
        Ok(()) => {},
        Err(e) => {
            return Err(e);
        },
    }
    match check_text(
        &genre,
        MAX_GENRE_LEN,
        ProgramErrorCode::EmptyBookGenre,
        ProgramErrorCode::BookGenreTooLong,
    ) {
        Ok(()) => {},
        Err(e) => {
            return Err(e);
        },
    }
    match check_text(
        &image_url,
        MAX_IMAGE_URL_LEN,
        ProgramErrorCode::EmptyImageUrl,
        ProgramErrorCode::ImageUrlTooLong,
    ) {
        Ok(()) => {},
        Err(e) => {
            return Err(e);
        },
    }
    let inputs: Vec<ChapterInput> = match chapters {
        Some(v) => v,
        None => Vec::new(),
    };
    proof {
        assert(inputs@ == inputs_of(chapters));
    }
    let (chs, total) = match build_chapters(&inputs, cfg) {
        Ok(built) => built,
        Err(e) => {
            return Err(e);
        },
    };
    let metadata = MetaData { description, publish_date, genre, image_url };
    let book = Book {
        author,
        title,
        metadata,
        full_book_price: total,
        total_stake: 0,
        chapters: chs,
        stakes: Vec::new(),
        readers: Vec::new(),
    };
    proof {
        assert(crate::state::sum_amounts(book.stakes@) == 0);
    }
    Ok(book)
}

/// The first reason adding or replacing chapter `index` is refused.
pub open spec fn chapter_error(
    book: Book,
    cfg: Config,
    url: Seq<char>,
    index: u8,
    price: u64,
    name: Seq<char>,
) -> Option<ProgramErrorCode> {
    let n = book.chapters@.len();
    let replaced = if (index as int) < n {
        book.chapters@[index as int].price as int
    } else {
        0
    };
    if n >= cfg.max_chapters {
        Some(ProgramErrorCode::MaxChaptersReached)
    } else if index as int > n {
        Some(ProgramErrorCode::InvalidChapterIndex)
    } else if byte_len(url) == 0 {
        Some(ProgramErrorCode::EmptyChapterUrl)
    } else if text_error(
        name,
        MAX_CHAPTER_NAME_LEN,
        ProgramErrorCode::EmptyChapterName,
        ProgramErrorCode::ChapterNameTooLong,
    ).is_some() {
        text_error(
            name,
            MAX_CHAPTER_NAME_LEN,
            ProgramErrorCode::EmptyChapterName,
            ProgramErrorCode::ChapterNameTooLong,
        )
    } else if price == 0 {
        Some(ProgramErrorCode::InvalidChapterPrice)
    } else if price > cfg.max_chapter_price {
        Some(ProgramErrorCode::ChapterPriceTooHigh)
    } else if book.full_book_price - replaced + price > u64::MAX {
        Some(ProgramErrorCode::ArithmeticOverflow)
    } else {
        None
    }
}

proof fn lemma_sum_prices_update(s: Seq<Chapter>, i: int, c: Chapter)
    requires
        0 <= i < s.len(),
    ensures
        sum_prices(s.update(i, c)) == sum_prices(s) - s[i].price + c.price,
        s[i].price <= sum_prices(s),
    decreases s.len(),
{
    let n = s.len() - 1;
    if i == n {
        assert(s.update(i, c).drop_last() =~= s.drop_last());
    } else {
        assert(s.update(i, c).drop_last() =~= s.drop_last().update(i, c));
        lemma_sum_prices_update(s.drop_last(), i, c);
    }
    lemma_sum_prices_nonneg(s.drop_last());
}

proof fn lemma_sum_prices_nonneg(s: Seq<Chapter>)
    ensures
        sum_prices(s) >= 0,
    decreases s.len(),
{
    if s.len() > 0 {
        lemma_sum_prices_nonneg(s.drop_last());
    }
}

fn rewrite(ch: &mut Chapter, url: String, price: u64, name: String)
    ensures
        final(ch).url == url,
        final(ch).price == price,
        final(ch).name == name,
        final(ch).index == old(ch).index,
        final(ch).readers == old(ch).readers,
{
    ch.url = url;
    ch.price = price;
    ch.name = name;
}

/// Appends chapter `index` when it is the next index, or replaces the
/// chapter at `index`. A replaced chapter keeps its readers, and the book's
/// full price follows the change. A refused chapter changes nothing.
pub fn add_chapter(
    book: &mut Book,
    cfg: &Config,
    chapter_url: String,
    chapter_index: u8,
    price: u64,
    name: String,
) -> (r: Result<(), ProgramErrorCode>)
    requires
        old(book).wf(),
        cfg.wf(),
    ensures
        r == match chapter_error(
            *old(book),
            *cfg,
            chapter_url@,
            chapter_index,
            price,
            name@,
        ) {
            Some(e) => Err::<(), ProgramErrorCode>(e),
            None => Ok(()),
        },
        r.is_err() ==> *final(book) == *old(book),
        r.is_ok() ==> {
            let i = chapter_index as int;
            let n = old(book).chapters@.len();
            &&& final(book).chapters@.len() == if i == n {
                n + 1
            } else {
                n
            }
            &&& forall|j: int|
                0 <= j < n && j != i ==> #[trigger] final(book).chapters@[j] == old(
                    book,
                ).chapters@[j]
            &&& final(book).chapters@[i].url == chapter_url
            &&& final(book).chapters@[i].price == price
            &&& final(book).chapters@[i].name == name
            &&& final(book).chapters@[i].index == chapter_index
            &&& final(book).chapters@[i].readers@ == if i == n {
                Seq::<Pubkey>::empty()
            } else {
                old(book).chapters@[i].readers@
            }
            &&& final(book).full_book_price == old(book).full_book_price - (if i < n {
                old(book).chapters@[i].price as int
            } else {
                0
            }) + price
            &&& final(book).author == old(book).author
            &&& final(book).title == old(book).title
            &&& final(book).metadata == old(book).metadata
            &&& final(book).total_stake == old(book).total_stake
            &&& final(book).stakes == old(book).stakes
            &&& final(book).readers == old(book).readers
            &&& final(book).wf()
        },
{
    let n = book.chapters.len();
    if n >= cfg.max_chapters {
        return Err(ProgramErrorCode::MaxChaptersReached);
    }
    if chapter_index as usize > n {
        return Err(ProgramErrorCode::InvalidChapterIndex);
    }
    if text_len(&chapter_url) == 0 {
        return Err(ProgramErrorCode::EmptyChapterUrl);
    }
    match check_text(
        &name,
        MAX_CHAPTER_NAME_LEN,
        ProgramErrorCode::EmptyChapterName,
        ProgramErrorCode::ChapterNameTooLong,
    ) {
        Ok(()) => {},
        Err(e) => {
            return Err(e);
        },
    }
    if price == 0 {
        return Err(ProgramErrorCode::InvalidChapterPrice);
    }
    if price > cfg.max_chapter_price {
        return Err(ProgramErrorCode::ChapterPriceTooHigh);
    }
    let i = chapter_index as usize;
    let replaced: u64 = if i < n {
        book.chapters[i].price
    } else {
        0
    };
    let ghost start = *book;
    proof {
        if i < n {
            lemma_sum_prices_update(start.chapters@, i as int, start.chapters@[i as int]);
        }
    }
    let kept = book.full_book_price - replaced;
    if kept > u64::MAX - price {
        return Err(ProgramErrorCode::ArithmeticOverflow);
    }
    if i == n {
        book.chapters.push(
            Chapter { price, url: chapter_url, name, index: chapter_index, readers: Vec::new() },
        );
        proof {
            assert(book.chapters@.drop_last() =~= start.chapters@);
        }
    } else {
        rewrite(&mut book.chapters[i], chapter_url, price, name);
        proof {
            lemma_sum_prices_update(start.chapters@, i as int, book.chapters@[i as int]);
            assert(book.chapters@ =~= start.chapters@.update(i as int, book.chapters@[i as int]));
        }
    }
    book.full_book_price = kept + price;
    Ok(())
}

} // verus!
