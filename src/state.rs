use vstd::prelude::*;

verus! {

/// A 32-byte account identity.
#[derive(Clone, Copy, Debug)]
pub struct Pubkey {
    pub bytes: [u8; 32],
}

impl Pubkey {
    pub fn new(bytes: [u8; 32]) -> (k: Pubkey)
        ensures
            k.bytes == bytes,
    {
        Pubkey { bytes }
    }
}

impl PartialEq for Pubkey {
    fn eq(&self, other: &Pubkey) -> (r: bool) {
        let mut i: usize = 0;
        while i < 32
            invariant
                0 <= i <= 32,
                forall|j: int| 0 <= j < i ==> self.bytes[j] == other.bytes[j],
            decreases 32 - i,
        {
            if self.bytes[i] != other.bytes[i] {
                return false;
            }
            i = i + 1;
        }
        proof {
            assert(self.bytes =~= other.bytes);
        }
        true
    }
}

impl vstd::std_specs::cmp::PartialEqSpecImpl for Pubkey {
    open spec fn obeys_eq_spec() -> bool {
        true
    }

    open spec fn eq_spec(&self, other: &Pubkey) -> bool {
        *self == *other
    }
}

impl Eq for Pubkey {
}

/// Descriptive data of a book.
#[derive(Debug)]
pub struct MetaData {
    pub description: String,
    pub publish_date: i64,
    pub genre: String,
    pub image_url: String,
}

/// One priced chapter and the readers entitled to it.
#[derive(Debug)]
pub struct Chapter {
    pub price: u64,
    pub url: String,
    pub name: String,
    pub index: u8,
    pub readers: Vec<Pubkey>,
}

/// A staker's position in a book's pool.
#[derive(Clone, Copy, Debug)]
pub struct Stake {
    pub staker: Pubkey,
    pub amount: u64,
    pub earnings: u64,
    pub total_earning: u64,
}

/// A book: its chapters, its full-book readers and its stakers.
#[derive(Debug)]
pub struct Book {
    pub author: Pubkey,
    pub title: String,
    pub metadata: MetaData,
    pub full_book_price: u64,
    pub total_stake: u64,
    pub chapters: Vec<Chapter>,
    pub stakes: Vec<Stake>,
    pub readers: Vec<Pubkey>,
}

/// Total price of a run of chapters.
pub open spec fn sum_prices(chs: Seq<Chapter>) -> int
    decreases chs.len(),
{
    if chs.len() == 0 {
        0
    } else {
        sum_prices(chs.drop_last()) + chs.last().price
    }
}

/// Total price of the chapters of a run that `k` does not hold yet.
pub open spec fn unowned_price(chs: Seq<Chapter>, k: Pubkey) -> int
    decreases chs.len(),
{
    if chs.len() == 0 {
        0
    } else {
        unowned_price(chs.drop_last(), k) + if chs.last().readers@.contains(k) {
            0
        } else {
            chs.last().price as int
        }
    }
}

/// Total principal of a run of stakes.
pub open spec fn sum_amounts(stakes: Seq<Stake>) -> int
    decreases stakes.len(),
{
    if stakes.len() == 0 {
        0
    } else {
        sum_amounts(stakes.drop_last()) + stakes.last().amount
    }
}

/// Total claimable earnings of a run of stakes.
pub open spec fn sum_earnings(stakes: Seq<Stake>) -> int
    decreases stakes.len(),
{
    if stakes.len() == 0 {
        0
    } else {
        sum_earnings(stakes.drop_last()) + stakes.last().earnings
    }
}

/// `k` is in the reader set of every chapter.
pub open spec fn holds_all(chs: Seq<Chapter>, k: Pubkey) -> bool {
    forall|j: int| 0 <= j < chs.len() ==> #[trigger] chs[j].readers@.contains(k)
}

pub open spec fn has_staker(stakes: Seq<Stake>, k: Pubkey) -> bool {
    exists|i: int| 0 <= i < stakes.len() && #[trigger] stakes[i].staker == k
}

impl Book {
    /// Chapter indices are dense from 0, the stored totals match their parts,
    /// each staker appears once with a positive principal, and claimable
    /// earnings never exceed lifetime earnings.
    pub open spec fn wf(&self) -> bool {
        &&& self.chapters@.len() <= 255
        &&& forall|i: int|
            0 <= i < self.chapters@.len() ==> #[trigger] self.chapters@[i].index as int == i
        &&& self.full_book_price as int == sum_prices(self.chapters@)
        &&& self.total_stake as int == sum_amounts(self.stakes@)
        &&& forall|i: int|
            0 <= i < self.stakes@.len() ==> {
                &&& #[trigger] self.stakes@[i].amount > 0
                &&& self.stakes@[i].earnings <= self.stakes@[i].total_earning
            }
        &&& forall|i: int, j: int|
            0 <= i < j < self.stakes@.len() ==> #[trigger] self.stakes@[i].staker
                != #[trigger] self.stakes@[j].staker
    }

    /// `k` holds chapter `i`.
    pub open spec fn holds(&self, k: Pubkey, i: int) -> bool {
        self.chapters@[i].readers@.contains(k)
    }
}

/// Whether `v` holds `k`.
pub fn has_key(v: &Vec<Pubkey>, k: &Pubkey) -> (r: bool)
    ensures
        r == v@.contains(*k),
{
    let mut i: usize = 0;
    while i < v.len()
        invariant
            i <= v@.len(),
            forall|j: int| 0 <= j < i ==> v@[j] != *k,
        decreases v@.len() - i,
    {
        if v[i] == *k {
            assert(v@[i as int] == *k);
            return true;
        }
        i = i + 1;
    }
    false
}

pub proof fn lemma_prefix_prices(chs: Seq<Chapter>, k: Pubkey, i: int)
    requires
        0 <= i <= chs.len(),
    ensures
        0 <= unowned_price(chs.take(i), k) <= sum_prices(chs.take(i)) <= sum_prices(chs),
    decreases chs.len() - i,
{
    if i == chs.len() {
        assert(chs.take(i) =~= chs);
        lemma_unowned_le_sum(chs, k);
    } else {
        lemma_prefix_prices(chs, k, i + 1);
        assert(chs.take(i + 1).drop_last() =~= chs.take(i));
        lemma_unowned_le_sum(chs.take(i), k);
    }
}

pub proof fn lemma_unowned_le_sum(chs: Seq<Chapter>, k: Pubkey)
    ensures
        0 <= unowned_price(chs, k) <= sum_prices(chs),
    decreases chs.len(),
{
    if chs.len() > 0 {
        lemma_unowned_le_sum(chs.drop_last(), k);
    }
}

fn prices_match(chapters: &Vec<Chapter>, total: u64) -> (r: bool)
    ensures
        r == (total as int == sum_prices(chapters@)),
{
    let mut sum: u64 = 0;
    let mut i: usize = 0;
    while i < chapters.len()
        invariant
            i <= chapters@.len(),
            sum as int == sum_prices(chapters@.take(i as int)),
        decreases chapters@.len() - i,
    {
        proof {
            assert(chapters@.take(i + 1).drop_last() =~= chapters@.take(i as int));
        }
        if sum > u64::MAX - chapters[i].price {
            proof {
                lemma_prices_prefix_grow(chapters@, i + 1);
            }
            return false;
        }
        sum = sum + chapters[i].price;
        i = i + 1;
    }
    proof {
        assert(chapters@.take(i as int) =~= chapters@);
    }
    sum == total
}

proof fn lemma_prices_prefix_grow(chs: Seq<Chapter>, i: int)
    requires
        0 <= i <= chs.len(),
    ensures
        sum_prices(chs.take(i)) <= sum_prices(chs),
    decreases chs.len() - i,
{
    if i < chs.len() {
        lemma_prices_prefix_grow(chs, i + 1);
        assert(chs.take(i + 1).drop_last() =~= chs.take(i));
    } else {
        assert(chs.take(i) =~= chs);
    }
}

fn amounts_match(stakes: &Vec<Stake>, total: u64) -> (r: bool)
    ensures
        r == (total as int == sum_amounts(stakes@)),
{
    let mut sum: u64 = 0;
    let mut i: usize = 0;
    while i < stakes.len()
        invariant
            i <= stakes@.len(),
            sum as int == sum_amounts(stakes@.take(i as int)),
        decreases stakes@.len() - i,
    {
        proof {
            assert(stakes@.take(i + 1).drop_last() =~= stakes@.take(i as int));
        }
        if sum > u64::MAX - stakes[i].amount {
            proof {
                lemma_amounts_prefix_grow(stakes@, i + 1);
            }
            return false;
        }
        sum = sum + stakes[i].amount;
        i = i + 1;
    }
    proof {
        assert(stakes@.take(i as int) =~= stakes@);
    }
    sum == total
}

proof fn lemma_amounts_prefix_grow(s: Seq<Stake>, i: int)
    requires
        0 <= i <= s.len(),
    ensures
        sum_amounts(s.take(i)) <= sum_amounts(s),
    decreases s.len() - i,
{
    if i < s.len() {
        lemma_amounts_prefix_grow(s, i + 1);
        assert(s.take(i + 1).drop_last() =~= s.take(i));
    } else {
        assert(s.take(i) =~= s);
    }
}

/// Whether `book` satisfies `Book::wf`; callers that load a book from
/// storage test it before handing the book to the ledger operations.
pub fn is_well_formed(book: &Book) -> (r: bool)
    ensures
        r == book.wf(),
{
    if book.chapters.len() > 255 {
        return false;
    }
    let mut i: usize = 0;
    while i < book.chapters.len()
        invariant
            i <= book.chapters@.len(),
            forall|j: int| 0 <= j < i ==> #[trigger] book.chapters@[j].index as int == j,
        decreases book.chapters@.len() - i,
    {
        if book.chapters[i].index as usize != i {
            return false;
        }
        i = i + 1;
    }
    if !prices_match(&book.chapters, book.full_book_price) {
        return false;
    }
    if !amounts_match(&book.stakes, book.total_stake) {
        return false;
    }
    let n = book.stakes.len();
    let mut i: usize = 0;
    while i < n
        invariant
            n == book.stakes@.len(),
            i <= n,
            forall|j: int|
                0 <= j < i ==> {
                    &&& #[trigger] book.stakes@[j].amount > 0
                    &&& book.stakes@[j].earnings <= book.stakes@[j].total_earning
                },
            forall|a: int, b: int|
                0 <= a < b < n && a < i ==> #[trigger] book.stakes@[a].staker
                    != #[trigger] book.stakes@[b].staker,
        decreases n - i,
    {
        let s = book.stakes[i];
        if s.amount == 0 || s.earnings > s.total_earning {
            return false;
        }
        let mut j: usize = i + 1;
        while j < n
            invariant
                n == book.stakes@.len(),
                i < j <= n,
                s == book.stakes@[i as int],
                forall|b: int| i < b < j ==> #[trigger] book.stakes@[b].staker != s.staker,
            decreases n - j,
        {
            if book.stakes[j].staker == s.staker {
                return false;
            }
            j = j + 1;
        }
        i = i + 1;
    }
    true
}

} // verus!
