//! A processor's own stock of free pages.

use crate::hal::mmu::PageSize;
use crate::memory::pmm::{
    block_bytes, block_in, first_fit, frame_of, freed, free_pages, is_block, is_free,
    law_alloc_counts_pages, law_free_counts_pages, law_split_counts_pages, lemma_first_fit,
    lemma_free_page, lemma_managed_known, lemma_only_drawn, lemma_only_returned, lemma_page_bytes,
    managed_buddies, nth, only_drawn, only_returned, pulled, split_lists, Allocator, FreeLists, PF_FREE,
};
use vstd::arithmetic::power2::lemma2_to64;
use vstd::prelude::*;

verus! {

pub const MAG_CAPACITY: usize = 256;

/// A page that is neither free nor marked so.
pub open spec fn in_use(pmm: Allocator, page: u64) -> bool {
    &&& is_block(page, 0, pmm.frames())
    &&& !is_free(pmm@, page as int)
    &&& pmm.table()[frame_of(page)].flags & PF_FREE == 0
}

/// The bytes that are free or belong to one of the pages.
pub open spec fn stock(lists: FreeLists, pages: Seq<u64>) -> Set<int> {
    Set::new(|a: int| is_free(lists, a) || in_pages(pages, a))
}

pub open spec fn in_pages(pages: Seq<u64>, a: int) -> bool {
    exists|i: int| 0 <= i < pages.len() && (#[trigger] pages[i]) <= a < pages[i] + 4096
}

/// The pages are in use, each is listed once, and all of them can be given
/// back.
pub open spec fn stocked(pages: Seq<u64>, pmm: Allocator) -> bool {
    &&& pmm.wf()
    &&& pages.no_duplicates()
    &&& forall|i: int| 0 <= i < pages.len() ==> in_use(pmm, #[trigger] pages[i])
    &&& managed_buddies(stock(pmm@, pages), pmm.frames())
}

/// The first `n` pages that are handed out one by one, and the free lists
/// after that.
pub open spec fn taken(lists: FreeLists, n: nat) -> (Seq<u64>, FreeLists)
    decreases n,
{
    if n == 0 {
        (Seq::empty(), lists)
    } else {
        let (pages, rest) = taken(lists, (n - 1) as nat);
        match first_fit(rest, 0) {
            Some(k) => {
                let page = nth(rest, k, 0);
                (pages.push(page), split_lists(pulled(rest, k, 0), page, k, 0))
            },
            None => (pages, rest),
        }
    }
}

/// The free lists after the pages are given back, the last one first.
pub open spec fn given_back(lists: FreeLists, pages: Seq<u64>) -> FreeLists
    decreases pages.len(),
{
    if pages.len() == 0 {
        lists
    } else {
        given_back(freed(lists, pages.last(), 0), pages.drop_last())
    }
}

/// Every page that is handed out is one free page less.
pub proof fn lemma_taken_counts(lists: FreeLists, n: nat)
    requires
        lists.len() == 12,
        n <= free_pages(lists),
    ensures
        taken(lists, n).0.len() == n,
        taken(lists, n).1.len() == 12,
        free_pages(taken(lists, n).1) + n == free_pages(lists),
    decreases n,
{
    if n > 0 {
        lemma_taken_counts(lists, (n - 1) as nat);
        let rest = taken(lists, (n - 1) as nat).1;
        law_alloc_counts_pages(rest);
        let k = first_fit(rest, 0)->0;
        lemma_first_fit(rest, 0, k);
        law_split_counts_pages(pulled(rest, k, 0), nth(rest, k, 0), k, 0);
    }
}

/// Every page that is given back is one free page more.
pub proof fn lemma_given_back_counts(lists: FreeLists, pages: Seq<u64>)
    requires
        lists.len() == 12,
    ensures
        given_back(lists, pages).len() == 12,
        free_pages(given_back(lists, pages)) == free_pages(lists) + pages.len(),
    decreases pages.len(),
{
    if pages.len() > 0 {
        lemma2_to64();
        law_free_counts_pages(lists, pages.last(), 0);
        lemma_given_back_counts(freed(lists, pages.last(), 0), pages.drop_last());
    }
}

pub struct Magazine {
    pages: [u64; 256],
    count: usize,
}

impl Magazine {
    pub closed spec fn wf(&self) -> bool {
        self.count <= 256
    }

    /// The pages in stock, the one to be handed out next at the end.
    pub closed spec fn view(&self) -> Seq<u64> {
        self.pages@.subrange(0, self.count as int)
    }

    pub proof fn lemma_len(&self)
        requires
            self.wf(),
        ensures
            self@.len() <= 256,
    {
    }

    pub fn init() -> (r: Self)
        ensures
            r.wf(),
            r@ == Seq::<u64>::empty(),
    {
        let r = Self { pages: [0;256], count: 0 };
        assert(r@ =~= Seq::<u64>::empty());
        r
    }

    pub fn len(&self) -> (r: usize)
        requires
            self.wf(),
        ensures
            r == self@.len(),
    {
        self.count
    }

    fn push(&mut self, page: u64)
        requires
            old(self).wf(),
            old(self)@.len() < 256,
        ensures
            final(self).wf(),
            final(self)@ == old(self)@.push(page),
    {
        self.pages[self.count] = page;
        self.count += 1;
        assert(self@ =~= old(self)@.push(page));
    }

    fn pop(&mut self) -> (r: u64)
        requires
            old(self).wf(),
            old(self)@.len() > 0,
        ensures
            final(self).wf(),
            r == old(self)@.last(),
            final(self)@ == old(self)@.drop_last(),
    {
        self.count -= 1;
        let ret = self.pages[self.count];
        self.pages[self.count] = 0;
        assert(self@ =~= old(self)@.drop_last());
        ret
    }

    /// Hands out a page from the stock; an empty stock is filled up to half
    /// from the allocator first.
    pub fn alloc_page(&mut self, pmm: &mut Allocator) -> (r: u64)
        requires
            old(self).wf(),
            stocked(old(self)@, *old(pmm)),
            old(self)@.len() > 0 || free_pages(old(pmm)@) >= MAG_CAPACITY / 2,
        ensures
            final(self).wf(),
            stocked(final(self)@.push(r), *final(pmm)),
            final(pmm).frames() == old(pmm).frames(),
            only_drawn(*old(pmm), *final(pmm)),
            if old(self)@.len() > 0 {
                &&& r == old(self)@.last()
                &&& final(self)@ == old(self)@.drop_last()
                &&& *final(pmm) == *old(pmm)
            } else {
                let (pages, rest) = taken(old(pmm)@, 128);
                &&& pages.len() == 128
                &&& r == pages.last()
                &&& final(self)@ == pages.drop_last()
                &&& final(pmm)@ == rest
            },
            forall|a: int| #[trigger]
                stock(final(pmm)@, final(self)@.push(r)).contains(a) <==> stock(
                    old(pmm)@,
                    old(self)@,
                ).contains(a),
            forall|p: u64|
                #![trigger in_use(*final(pmm), p)]
                #![trigger in_use(*old(pmm), p)]
                in_use(*old(pmm), p) ==> in_use(*final(pmm), p),
    {
        if self.count > 0 {
            let r = self.pop();
            assert(self@.push(r) =~= old(self)@);
            return r;
        }
        assert(self@ =~= Seq::<u64>::empty());
        let mut i: u64 = 0;
        while i < 127
            invariant
                i <= 127,
                self.wf(),
                self@.len() == i,
                stocked(self@, *pmm),
                free_pages(pmm@) + i == free_pages(old(pmm)@),
                free_pages(old(pmm)@) >= 128,
                old(self)@.len() == 0,
                pmm.frames() == old(pmm).frames(),
                only_drawn(*old(pmm), *pmm),
                taken(old(pmm)@, i as nat) == (self@, pmm@),
                forall|a: int| #[trigger]
                    stock(pmm@, self@).contains(a) <==> stock(old(pmm)@, old(self)@).contains(a),
                forall|p: u64|
                    #![trigger in_use(*pmm, p)]
                    #![trigger in_use(*old(pmm), p)]
                    in_use(*old(pmm), p) ==> in_use(*pmm, p),
            decreases 127 - i,
        {
            let ghost before = *pmm;
            let block = take_one(pmm, Ghost(self@));
            proof {
                lemma_only_drawn(*old(pmm), before, *pmm);
            }
            self.push(block);
            i += 1;
        }
        let ghost pages = self@;
        let ghost before = *pmm;
        let r = take_one(pmm, Ghost(self@));
        proof {
            lemma_only_drawn(*old(pmm), before, *pmm);
        }
        assert(pages.push(r).drop_last() =~= pages);
        r
    }

    /// Takes a page into the stock; a full stock gives half of itself back to
    /// the allocator first.
    pub fn free(&mut self, addr: u64, pmm: &mut Allocator)
        requires
            old(self).wf(),
            stocked(old(self)@.push(addr), *old(pmm)),
        ensures
            final(self).wf(),
            stocked(final(self)@, *final(pmm)),
            final(pmm).frames() == old(pmm).frames(),
            only_returned(*old(pmm), *final(pmm)),
            if old(self)@.len() < 256 {
                &&& final(self)@ == old(self)@.push(addr)
                &&& *final(pmm) == *old(pmm)
            } else {
                &&& final(self)@ == old(self)@.take(128).push(addr)
                &&& final(pmm)@ == given_back(old(pmm)@, old(self)@.skip(128))
            },
            forall|a: int| #[trigger]
                stock(final(pmm)@, final(self)@).contains(a) <==> stock(
                    old(pmm)@,
                    old(self)@.push(addr),
                ).contains(a),
            forall|p: u64|
                #![trigger in_use(*final(pmm), p)]
                #![trigger in_use(*old(pmm), p)]
                in_use(*old(pmm), p) && !old(self)@.contains(p) ==> in_use(*final(pmm), p),
    {
        if self.count < MAG_CAPACITY {
            self.push(addr);
            return;
        }
        let ghost all = self@;
        let mut i: u64 = 0;
        proof {
            assert(all.take(256) =~= all);
            assert(all.skip(128).take(128) =~= all.skip(128));
        }
        while i < 128
            invariant
                i <= 128,
                all == old(self)@,
                all.len() == 256,
                self.wf(),
                self@ == all.take(256 - i),
                stocked(self@.push(addr), *pmm),
                pmm.frames() == old(pmm).frames(),
                only_returned(*old(pmm), *pmm),
                given_back(old(pmm)@, all.skip(128)) == given_back(
                    pmm@,
                    all.skip(128).take(128 - i),
                ),
                forall|a: int| #[trigger]
                    stock(pmm@, self@.push(addr)).contains(a) <==> stock(
                        old(pmm)@,
                        old(self)@.push(addr),
                    ).contains(a),
                forall|p: u64|
                    #![trigger in_use(*pmm, p)]
                    #![trigger in_use(*old(pmm), p)]
                    in_use(*old(pmm), p) && !all.contains(p) ==> in_use(*pmm, p),
            decreases 128 - i,
        {
            let ghost before = self@;
            let page = self.pop();
            proof {
                let t = all.skip(128).take(128 - i);
                assert(t.last() == page);
                assert(t.drop_last() =~= all.skip(128).take(128 - (i + 1)));
                assert(self@ =~= all.take(256 - (i + 1)));
                assert(before =~= self@.push(page));
                assert(all[256 - i - 1] == page);
                assert(all.contains(page));
            }
            let ghost held = *pmm;
            give_one(pmm, page, Ghost(self@), addr);
            proof {
                lemma_only_returned(*old(pmm), held, *pmm);
            }
            i += 1;
        }
        proof {
            assert(all.skip(128).take(0) =~= Seq::<u64>::empty());
            assert(self@ =~= all.take(128));
        }
        self.push(addr);
    }
}

/// Takes one page from the allocator, beside those of `pages`.
fn take_one(pmm: &mut Allocator, Ghost(pages): Ghost<Seq<u64>>) -> (r: u64)
    requires
        stocked(pages, *old(pmm)),
        free_pages(old(pmm)@) > 0,
    ensures
        stocked(pages.push(r), *final(pmm)),
        first_fit(old(pmm)@, 0) matches Some(k) && r == nth(old(pmm)@, k, 0) && final(pmm)@
            == split_lists(pulled(old(pmm)@, k, 0), r, k, 0),
        free_pages(final(pmm)@) + 1 == free_pages(old(pmm)@),
        final(pmm).frames() == old(pmm).frames(),
        only_drawn(*old(pmm), *final(pmm)),
        forall|a: int| #[trigger]
            stock(final(pmm)@, pages.push(r)).contains(a) <==> stock(old(pmm)@, pages).contains(a),
        forall|p: u64|
            #![trigger in_use(*final(pmm), p)]
            #![trigger in_use(*old(pmm), p)]
            in_use(*old(pmm), p) ==> in_use(*final(pmm), p),
{
    let ghost before = *pmm;
    proof {
        pmm.lemma_sound();
        law_alloc_counts_pages(pmm@);
        lemma_page_bytes();
    }
    let r = pmm.alloc_page(PageSize::Size4K).unwrap();
    proof {
        pmm.lemma_sound();
        let after = *pmm;
        let all = pages.push(r);
        lemma_first_fit(before@, 0, first_fit(before@, 0)->0);
        lemma_alloc_keeps(before, after, r, 0);
        assert(in_use(after, r));
        assert forall|i: int| 0 <= i < all.len() implies in_use(after, #[trigger] all[i]) by {
            if i < pages.len() {
                assert(all[i] == pages[i]);
                assert(in_use(before, pages[i]));
            }
        }
        assert(all.no_duplicates()) by {
            assert forall|i: int, j: int|
                0 <= i < all.len() && 0 <= j < all.len() && i != j implies all[i] != all[j] by {
                if i == pages.len() {
                    assert(in_use(before, pages[j]));
                    assert(is_free(before@, r as int));
                } else if j == pages.len() {
                    assert(in_use(before, pages[i]));
                    assert(is_free(before@, r as int));
                }
            }
        }
        assert forall|a: int| #[trigger] stock(after@, all).contains(a) <==> stock(
            before@,
            pages,
        ).contains(a) by {
            lemma_in_pages_push(pages, r, a);
        }
        assert(stock(after@, all) =~= stock(before@, pages));
    }
    r
}

/// Gives one page back to the allocator, beside those of `pages` and `other`,
/// which stay.
fn give_one(pmm: &mut Allocator, page: u64, Ghost(pages): Ghost<Seq<u64>>, other: u64)
    requires
        stocked(pages.push(page).push(other), *old(pmm)),
    ensures
        stocked(pages.push(other), *final(pmm)),
        final(pmm)@ == freed(old(pmm)@, page, 0),
        final(pmm).frames() == old(pmm).frames(),
        only_returned(*old(pmm), *final(pmm)),
        forall|a: int| #[trigger]
            stock(final(pmm)@, pages.push(other)).contains(a) <==> stock(
                old(pmm)@,
                pages.push(page).push(other),
            ).contains(a),
        forall|p: u64|
            #![trigger in_use(*final(pmm), p)]
            #![trigger in_use(*old(pmm), p)]
            in_use(*old(pmm), p) && p != page ==> in_use(*final(pmm), p),
{
    let ghost before = *pmm;
    let ghost all = pages.push(page).push(other);
    let ghost kept = pages.push(other);
    proof {
        pmm.lemma_sound();
        lemma_page_bytes();
        assert(all[pages.len() as int] == page);
        assert(in_use(before, page));
        let managed = stock(pmm@, all);
        assert(block_in(managed, page, 0)) by {
            assert forall|a: int| page <= a < page + block_bytes(0) implies #[trigger] managed.contains(
                a,
            ) by {
                assert(all[pages.len() as int] <= a < all[pages.len() as int] + 4096);
                assert(in_pages(all, a));
            }
        }
        lemma_managed_known(pmm@, managed, pmm.frames(), page, 0);
        assert forall|a: int| page <= a < page + 4096 implies !#[trigger] is_free(before@, a) by {
            if is_free(before@, a) {
                lemma_page_of(page, a, before.frames());
                lemma_free_page(before@, before.frames(), a, page as int);
            }
        }
    }
    pmm.free(page, PageSize::Size4K);
    proof {
        let after = *pmm;
        assert forall|p: u64|
            #![trigger in_use(after, p)]
            #![trigger in_use(before, p)]
            in_use(before, p) && p != page implies in_use(after, p) by {
            lemma_pages_differ(p, page, before.frames());
            assert(!is_free(after@, p as int));
            lemma_page_of(p, p as int, before.frames());
            assert(after.table()[frame_of(p)] == before.table()[frame_of(p)]);
        }
        assert forall|i: int| 0 <= i < kept.len() implies in_use(after, #[trigger] kept[i]) by {
            let ii = if i < pages.len() {
                i
            } else {
                i + 1
            };
            assert(all[ii] == kept[i]);
            assert(all[pages.len() as int] == page);
            assert(in_use(before, all[ii]));
        }
        assert(kept.no_duplicates()) by {
            assert forall|i: int, j: int|
                0 <= i < kept.len() && 0 <= j < kept.len() && i != j implies kept[i] != kept[j] by {
                let ii = if i < pages.len() {
                    i
                } else {
                    i + 1
                };
                let jj = if j < pages.len() {
                    j
                } else {
                    j + 1
                };
                assert(all[ii] == kept[i] && all[jj] == kept[j]);
            }
        }
        assert forall|a: int| #[trigger] stock(after@, kept).contains(a) <==> stock(
            before@,
            all,
        ).contains(a) by {
            lemma_in_pages_push(pages, page, a);
            lemma_in_pages_push(pages.push(page), other, a);
            lemma_in_pages_push(pages, other, a);
        }
        assert(stock(after@, kept) =~= stock(before@, all));
    }
}

pub proof fn lemma_in_pages_push(pages: Seq<u64>, page: u64, a: int)
    ensures
        in_pages(pages.push(page), a) <==> in_pages(pages, a) || page <= a < page + 4096,
{
    let all = pages.push(page);
    if in_pages(all, a) {
        let i = choose|i: int| 0 <= i < all.len() && (#[trigger] all[i]) <= a < all[i] + 4096;
        if i < pages.len() {
            assert(pages[i] <= a < pages[i] + 4096);
        }
    }
    if in_pages(pages, a) {
        let i = choose|i: int|
            0 <= i < pages.len() && (#[trigger] pages[i]) <= a < pages[i] + 4096;
        assert(all[i] <= a < all[i] + 4096);
    }
    if page <= a < page + 4096 {
        assert(all[pages.len() as int] <= a < all[pages.len() as int] + 4096);
    }
}

pub proof fn lemma_page_of(page: u64, a: int, frames: int)
    requires
        is_block(page, 0, frames),
        page <= a < page + 4096,
    ensures
        a / 4096 == page as int / 4096,
        page as int % 4096 == 0,
        4096 * frame_of(page) == page,
        0 <= frame_of(page) < frames,
{
    lemma_page_bytes();
}

pub proof fn lemma_pages_differ(p: u64, q: u64, frames: int)
    requires
        is_block(p, 0, frames),
        is_block(q, 0, frames),
        p != q,
    ensures
        p + 4096 <= q || q + 4096 <= p,
{
    lemma_page_bytes();
}

/// Handing a block out leaves every page in use so.
pub proof fn lemma_alloc_keeps(before: Allocator, after: Allocator, block: u64, order: int)
    requires
        before.wf(),
        after.wf(),
        after.frames() == before.frames(),
        0 <= order <= 11,
        first_fit(before@, order) matches Some(k) && {
            &&& 0 <= k <= 11
            &&& before@[k].len() > 0
            &&& block == nth(before@, k, 0)
            &&& forall|a: int| #[trigger]
                is_free(after@, a) <==> is_free(before@, a) && !(block <= a < block + block_bytes(
                    order,
                ))
            &&& forall|f: int|
                0 <= f < before.frames() && !(block <= 4096 * f < block + block_bytes(k))
                    ==> #[trigger] after.table()[f] == before.table()[f]
        },
    ensures
        forall|p: u64|
            #![trigger in_use(after, p)]
            #![trigger in_use(before, p)]
            in_use(before, p) ==> in_use(after, p),
{
    let k = first_fit(before@, order)->0;
    before.lemma_sound();
    assert forall|p: u64|
        #![trigger in_use(after, p)]
        #![trigger in_use(before, p)]
        in_use(before, p) implies in_use(after, p) by {
        lemma_page_of(p, p as int, before.frames());
        assert(!is_free(after@, p as int));
        assert(!(block <= 4096 * frame_of(p) < block + block_bytes(k))) by {
            if block <= p < block + block_bytes(k) {
                assert(nth(before@, k, 0) <= p < nth(before@, k, 0) + block_bytes(k));
                assert(is_free(before@, p as int));
            }
        }
    }
}

} // verus!
