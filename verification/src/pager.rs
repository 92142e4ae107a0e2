//! The pager: a cache of pages between the nodes and the page store.
//!
//! A page enters the cache when it is first asked for and stays there.
//! Nothing is evicted: the ceiling on page numbers bounds the cache.

use std::collections::hash_map::Entry;
use std::collections::HashMap;
use vstd::prelude::*;
use crate::error::DbError;
use crate::layout::PAGE_SIZE;
use crate::store::{lemma_with_page, page_at, with_page, PageStore, MAX_PAGES};

verus! {

broadcast use vstd::std_specs::hash::group_hash_axioms;

/// The page cache and the store it stands before.
#[derive(Debug)]
pub struct Pager {
    store: PageStore,
    num_pages: usize,
    pages: HashMap<usize, Vec<u8>>,
}

impl Pager {
    /// The image of the backing file as the store holds it.
    pub closed spec fn image(&self) -> Seq<u8> {
        self.store@
    }

    /// The number of pages that the pager counts.
    pub closed spec fn page_count(&self) -> usize {
        self.num_pages
    }

    /// Whether page `page_num` is in the cache.
    pub closed spec fn resident(&self, page_num: usize) -> bool {
        self.pages@.contains_key(page_num)
    }

    /// The bytes of a page that is in the cache.
    pub closed spec fn cached(&self, page_num: usize) -> Seq<u8> {
        self.pages@[page_num]@
    }

    /// What page `page_num` holds: the cached bytes, or those of the store
    /// for a page that was never asked for.
    pub open spec fn content(&self, page_num: usize) -> Seq<u8> {
        if self.resident(page_num) {
            self.cached(page_num)
        } else {
            page_at(self.image(), page_num as int)
        }
    }

    /// Every cached page has a page number within the ceiling and the size
    /// of a page.
    pub closed spec fn wf(&self) -> bool {
        forall|n: usize| #[trigger]
            self.pages@.contains_key(n) ==> n <= MAX_PAGES && self.pages@[n]@.len() == PAGE_SIZE
    }

    /// What well-formedness says of a cached page.
    pub proof fn lemma_wf(&self, page_num: usize)
        requires
            self.wf(),
            self.resident(page_num),
        ensures
            page_num <= MAX_PAGES,
            self.cached(page_num).len() == PAGE_SIZE,
    {
    }

    /// The image after the cached pages with a number below `upto` were
    /// written to it, in the order of their numbers.
    pub open spec fn flushed(&self, upto: nat) -> Seq<u8>
        decreases upto,
    {
        if upto == 0 {
            self.image()
        } else {
            let below = self.flushed((upto - 1) as nat);
            let n = (upto - 1) as usize;
            if self.resident(n) {
                with_page(below, n as int, self.cached(n))
            } else {
                below
            }
        }
    }

    /// After the pages below `upto` were written, the image holds for each
    /// of them what the pager holds, and for the others what it held before.
    pub proof fn lemma_flushed(&self, upto: nat, page_num: usize)
        requires
            self.wf(),
            upto <= MAX_PAGES + 1,
        ensures
            page_num < upto ==> page_at(self.flushed(upto), page_num as int) == self.content(
                page_num,
            ),
            page_num >= upto ==> page_at(self.flushed(upto), page_num as int) == page_at(
                self.image(),
                page_num as int,
            ),
            self.flushed(upto).len() >= self.image().len(),
        decreases upto,
    {
        if upto > 0 {
            let n = (upto - 1) as usize;
            self.lemma_flushed((upto - 1) as nat, page_num);
            if self.resident(n) {
                self.lemma_wf(n);
                lemma_with_page(
                    self.flushed((upto - 1) as nat),
                    n as int,
                    self.cached(n),
                    page_num as int,
                );
            }
        }
    }

    /// With page 0 alone in the cache, writing the cached pages out is
    /// writing page 0.
    pub proof fn lemma_flushed_first(&self, upto: nat)
        requires
            forall|n: usize| self.resident(n) <==> n == 0,
            1 <= upto <= MAX_PAGES + 1,
        ensures
            self.flushed(upto) == with_page(self.image(), 0, self.cached(0)),
        decreases upto,
    {
        reveal_with_fuel(Pager::flushed, 2);
        if upto > 1 {
            self.lemma_flushed_first((upto - 1) as nat);
        }
    }

    /// A pager over `store` with an empty cache. It counts the whole pages
    /// of the image.
    pub fn new(store: PageStore) -> (pager: Pager)
        ensures
            pager.wf(),
            pager.image() == store@,
            pager.page_count() == store@.len() / PAGE_SIZE as nat,
            forall|n: usize| !pager.resident(n),
    {
        let num_pages: usize = store.len() / PAGE_SIZE;
        Pager { store, num_pages, pages: HashMap::new() }
    }

    /// Whether the backing file held no whole page when the pager was made
    /// and no page above the first was asked for since.
    pub fn empty(&self) -> (b: bool)
        ensures
            b == (self.page_count() == 0),
    {
        self.num_pages == 0
    }

    /// The page with number `page_num`, for reading and writing. A page
    /// that is not in the cache is first read from the store.
    pub fn get_page(&mut self, page_num: usize) -> (r: Result<&mut Vec<u8>, DbError>)
        requires
            old(self).wf(),
        ensures
            page_num > MAX_PAGES ==> (r matches Err(e) && e == DbError::PageOutOfBounds),
            page_num <= MAX_PAGES ==> r is Ok,
            r is Err ==> *final(self) == *old(self),
            r matches Ok(page) ==> page@ == old(self).content(page_num) && page@.len()
                == PAGE_SIZE,
            r matches Ok(page) ==> final(self).resident(page_num) && final(self).cached(page_num)
                == final(page)@,
            r matches Ok(page) ==> (forall|n: usize|
                n != page_num ==> final(self).resident(n) == old(self).resident(n) && final(
                    self
                ).cached(n) == old(self).cached(n)),
            r matches Ok(page) ==> final(self).image() == old(self).image(),
            r matches Ok(page) ==> final(self).page_count() == (if old(self).page_count()
                < page_num {
                page_num
            } else {
                old(self).page_count()
            }),
            r matches Ok(page) ==> (final(page)@.len() == PAGE_SIZE ==> final(self).wf()),
    {
        if page_num > MAX_PAGES {
            return Err(DbError::PageOutOfBounds);
        }
        if self.num_pages < page_num {
            self.num_pages = page_num;
        }
        match self.pages.entry(page_num) {
            Entry::Vacant(e) => {
                let buffer: Vec<u8> = self.store.read_page(page_num);
                Ok(e.insert(buffer))
            },
            Entry::Occupied(e) => Ok(e.into_mut()),
        }
    }

    /// Writes every cached page to the store, in the order of the page
    /// numbers. The cache stays as it is.
    pub fn flush(&mut self)
        requires
            old(self).wf(),
        ensures
            final(self).wf(),
            final(self).image() == old(self).flushed((MAX_PAGES + 1) as nat),
            final(self).image().len() >= old(self).image().len(),
            final(self).page_count() == old(self).page_count(),
            forall|n: usize|
                final(self).resident(n) == old(self).resident(n) && final(self).cached(n) == old(
                    self
                ).cached(n),
            forall|n: usize| page_at(final(self).image(), n as int) == old(self).content(n),
    {
        let mut n: usize = 0;
        while n <= MAX_PAGES
            invariant
                n <= MAX_PAGES + 1,
                self.wf(),
                self.pages == old(self).pages,
                self.num_pages == old(self).num_pages,
                self.store@ == old(self).flushed(n as nat),
            decreases MAX_PAGES + 1 - n,
        {
            match self.pages.get(&n) {
                Some(page) => {
                    self.store.write_page(n, page.as_slice());
                },
                None => {},
            }
            n += 1;
        }
        proof {
            old(self).lemma_flushed((MAX_PAGES + 1) as nat, 0);
            assert forall|n: usize| page_at(self.image(), n as int) == old(self).content(n) by {
                old(self).lemma_flushed((MAX_PAGES + 1) as nat, n);
                if old(self).resident(n) {
                    old(self).lemma_wf(n);
                }
            }
        }
    }

    /// The store behind the pager.
    pub fn store(&self) -> (store: &PageStore)
        ensures
            store@ == self.image(),
    {
        &self.store
    }

    /// Gives up the pager for its store. What the cache holds and was not
    /// flushed is lost.
    pub fn into_store(self) -> (store: PageStore)
        ensures
            store@ == self.image(),
    {
        self.store
    }
}

} // verus!
