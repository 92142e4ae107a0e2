//! The page store: the image of the backing file, cut into pages.
//!
//! The store knows nothing of what a page holds. Reading the file into the
//! store and writing the store back to the file is left to the caller.

use vstd::prelude::*;
use crate::layout::PAGE_SIZE;

verus! {

/// The highest page number that can be asked for.
pub const MAX_PAGES: usize = 100;

/// The image of the backing file.
#[derive(Debug)]
pub struct PageStore {
    bytes: Vec<u8>,
}

impl View for PageStore {
    type V = Seq<u8>;

    closed spec fn view(&self) -> Seq<u8> {
        self.bytes@
    }
}

/// The page with number `page_num` of an image: the bytes at its offset,
/// with zeros where the image ends early.
pub open spec fn page_at(image: Seq<u8>, page_num: int) -> Seq<u8> {
    Seq::new(
        PAGE_SIZE as nat,
        |i: int|
            if page_num * PAGE_SIZE + i < image.len() {
                image[page_num * PAGE_SIZE + i]
            } else {
                0u8
            },
    )
}

/// The image after `page` was written at the offset of page `page_num`: an
/// image that ends before the page is lengthened with zeros.
pub open spec fn with_page(image: Seq<u8>, page_num: int, page: Seq<u8>) -> Seq<u8> {
    Seq::new(
        if image.len() >= (page_num + 1) * PAGE_SIZE {
            image.len()
        } else {
            ((page_num + 1) * PAGE_SIZE) as nat
        },
        |i: int|
            if page_num * PAGE_SIZE <= i < (page_num + 1) * PAGE_SIZE {
                page[i - page_num * PAGE_SIZE]
            } else if i < image.len() {
                image[i]
            } else {
                0u8
            },
    )
}

/// A page that was written reads back as itself, and no other page changes.
pub proof fn lemma_with_page(image: Seq<u8>, page_num: int, page: Seq<u8>, other: int)
    requires
        0 <= page_num,
        0 <= other,
        page.len() == PAGE_SIZE,
    ensures
        page_at(with_page(image, page_num, page), page_num) == page,
        other != page_num ==> page_at(with_page(image, page_num, page), other) == page_at(
            image,
            other,
        ),
{
    let out = with_page(image, page_num, page);
    assert(page_at(out, page_num) =~= page);
    if other != page_num {
        assert(page_at(out, other) =~= page_at(image, other));
    }
}

impl PageStore {
    /// The image of a file without bytes.
    pub fn new() -> (store: PageStore)
        ensures
            store@ == Seq::<u8>::empty(),
    {
        PageStore { bytes: Vec::new() }
    }

    /// The image that holds the bytes of a file.
    pub fn from_bytes(bytes: Vec<u8>) -> (store: PageStore)
        ensures
            store@ == bytes@,
    {
        PageStore { bytes }
    }

    /// The bytes of the image, to be written to the file.
    pub fn as_bytes(&self) -> (bytes: &Vec<u8>)
        ensures
            bytes@ == self@,
    {
        &self.bytes
    }

    /// The length of the image in bytes.
    pub fn len(&self) -> (n: usize)
        ensures
            n == self@.len(),
    {
        self.bytes.len()
    }

    /// A copy of the page with number `page_num`.
    pub fn read_page(&self, page_num: usize) -> (page: Vec<u8>)
        requires
            page_num <= MAX_PAGES,
        ensures
            page@ == page_at(self@, page_num as int),
    {
        let offset: usize = page_num * PAGE_SIZE;
        let len: usize = self.bytes.len();
        let mut page: Vec<u8> = Vec::new();
        let mut i: usize = 0;
        while i < PAGE_SIZE
            invariant
                i <= PAGE_SIZE,
                offset == page_num * PAGE_SIZE,
                page_num <= MAX_PAGES,
                len == self.bytes@.len(),
                page@ == page_at(self@, page_num as int).take(i as int),
            decreases PAGE_SIZE - i,
        {
            let byte: u8 = if offset + i < len {
                self.bytes[offset + i]
            } else {
                0
            };
            page.push(byte);
            i += 1;
            assert(page@ =~= page_at(self@, page_num as int).take(i as int));
        }
        assert(page@ =~= page_at(self@, page_num as int));
        page
    }

    /// Writes `page` at the offset of page `page_num`.
    pub fn write_page(&mut self, page_num: usize, page: &[u8])
        requires
            page_num <= MAX_PAGES,
            page@.len() == PAGE_SIZE,
        ensures
            final(self)@ == with_page(old(self)@, page_num as int, page@),
    {
        let offset: usize = page_num * PAGE_SIZE;
        let end: usize = offset + PAGE_SIZE;
        let ghost held = self.bytes@;
        while self.bytes.len() < end
            invariant
                end == (page_num + 1) * PAGE_SIZE,
                held.len() <= self.bytes@.len(),
                self.bytes@.len() <= end || self.bytes@.len() == held.len(),
                self.bytes@.take(held.len() as int) == held,
                forall|i: int| held.len() <= i < self.bytes@.len() ==> self.bytes@[i] == 0,
            decreases end - self.bytes@.len(),
        {
            self.bytes.push(0);
            assert(self.bytes@.take(held.len() as int) =~= held);
        }
        let ghost padded = self.bytes@;
        let mut i: usize = 0;
        while i < PAGE_SIZE
            invariant
                i <= PAGE_SIZE,
                offset == page_num * PAGE_SIZE,
                page_num <= MAX_PAGES,
                page@.len() == PAGE_SIZE,
                padded.len() >= offset + PAGE_SIZE,
                self.bytes@.len() == padded.len(),
                forall|j: int|
                    0 <= j < padded.len() ==> self.bytes@[j] == (if offset <= j < offset + i {
                        page@[j - offset]
                    } else {
                        padded[j]
                    }),
            decreases PAGE_SIZE - i,
        {
            self.bytes.set(offset + i, page[i]);
            i += 1;
        }
        proof {
            assert forall|j: int| 0 <= j < held.len() implies padded[j] == held[j] by {
                assert(padded.take(held.len() as int)[j] == padded[j]);
            }
            assert(self.bytes@ =~= with_page(held, page_num as int, page@));
        }
    }
}

} // verus!
