//! The pager: allocator and sole owner of all pages.
//!
//! Pages are held in creation order; the identifier of a page is its
//! index in that order. A page is a logical, variable-length storage
//! unit, not a fixed-size disk block: each `store_new` call creates one
//! page holding exactly the payload it was given, identifiers are
//! assigned sequentially starting at 0, and no page is ever deleted or
//! its identifier reused.

use vstd::prelude::*;

use crate::types::{PageId, StorageError};

verus! {

/// Header of a page, carrying the current payload length.
#[derive(Debug, PartialEq)]
pub struct PageHeader {
    pub size: usize,
}

/// A page: a length header plus the payload bytes.
#[derive(Debug, PartialEq)]
pub struct Page {
    pub head: PageHeader,
    pub data: Vec<u8>,
}

impl Page {
    /// The header length always equals the payload length.
    pub open spec fn wf(self) -> bool {
        self.head.size == self.data@.len()
    }

    pub fn new(data: Vec<u8>) -> (page: Page)
        ensures
            page.data@ == data@,
            page.wf(),
    {
        let size = data.len();
        Page { head: PageHeader { size }, data }
    }
}

impl View for Page {
    type V = Seq<u8>;

    open spec fn view(&self) -> Seq<u8> {
        self.data@
    }
}

/// Owner of a growable collection of pages, indexed by `PageId`.
/// The model of a pager is the sequence of its page payloads.
pub struct Pager {
    pages: Vec<Page>,
}

impl View for Pager {
    type V = Seq<Seq<u8>>;

    closed spec fn view(&self) -> Seq<Seq<u8>> {
        self.pages@.map_values(|page: Page| page@)
    }
}

impl Pager {
    /// Every held page has a header consistent with its payload.
    pub closed spec fn wf(self) -> bool {
        forall|i: int| 0 <= i < self.pages@.len() ==> (#[trigger] self.pages@[i]).wf()
    }

    pub fn new() -> (pager: Pager)
        ensures
            pager@.len() == 0,
            pager.wf(),
    {
        Pager { pages: Vec::new() }
    }

    /// Appends a new page holding exactly `data` and returns its fresh
    /// identifier: the number of pages stored before the call. Never
    /// fails, and never touches an existing page.
    pub fn store_new(&mut self, data: Vec<u8>) -> (id: PageId)
        requires
            old(self).wf(),
        ensures
            final(self).wf(),
            id.0 == old(self)@.len(),
            final(self)@ == old(self)@.push(data@),
    {
        let id = PageId(self.pages.len());
        let page = Page::new(data);
        self.pages.push(page);
        proof {
            assert(self@ =~= old(self)@.push(self.pages@.last()@));
        }
        id
    }

    /// Replaces the identified page's payload wholesale and recomputes
    /// its header; every other page is untouched. Fails, changing
    /// nothing, exactly when `id` was never allocated.
    pub fn update(&mut self, id: PageId, data: Vec<u8>) -> (result: Result<(), StorageError>)
        requires
            old(self).wf(),
        ensures
            final(self).wf(),
            result is Ok <==> id.0 < old(self)@.len(),
            id.0 < old(self)@.len() ==> final(self)@ == old(self)@.update(id.0 as int, data@),
            id.0 >= old(self)@.len() ==> final(self)@ == old(self)@,
            forall|j: int|
                0 <= j < old(self)@.len() && j != id.0 ==> final(self)@[j] == old(self)@[j],
    {
        if id.0 >= self.pages.len() {
            proof {
                assert(self@ =~= old(self)@);
            }
            return Err(StorageError(String::from_str("cant find page of that id")));
        }
        let page = Page::new(data);
        self.pages.set(id.0, page);
        proof {
            assert(self@ =~= old(self)@.update(id.0 as int, self.pages@[id.0 as int]@));
        }
        Ok(())
    }

    /// Point lookup: the page if `id` is in range, absent otherwise.
    /// Absence is a normal outcome, never an error.
    pub fn read(&self, id: PageId) -> (result: Option<&Page>)
        requires
            self.wf(),
        ensures
            result is Some <==> id.0 < self@.len(),
            id.0 < self@.len() ==> {
                &&& result matches Some(page)
                &&& page@ == self@[id.0 as int]
                &&& page.wf()
            },
    {
        if id.0 < self.pages.len() {
            Some(&self.pages[id.0])
        } else {
            None
        }
    }

    /// How many pages have been created over this pager's lifetime.
    pub fn page_count(&self) -> (n: usize)
        ensures
            n == self@.len(),
    {
        self.pages.len()
    }
}

} // verus!
