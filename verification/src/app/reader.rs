//! The reader screen's position in the open book.
use vstd::prelude::*;

verus! {

#[derive(Debug, Clone)]
pub struct ReaderState {
    page: u32,
    chapter: u16,
}

impl ReaderState {
    pub fn new() -> (r: ReaderState)
        ensures
            r.page() == 0,
            r.chapter() == 0,
    {
        ReaderState { page: 0, chapter: 0 }
    }

    pub closed spec fn spec_page(&self) -> u32 {
        self.page
    }

    pub closed spec fn spec_chapter(&self) -> u16 {
        self.chapter
    }

    #[verifier::when_used_as_spec(spec_page)]
    pub fn page(&self) -> (r: u32)
        ensures
            r == self.page(),
    {
        self.page
    }

    #[verifier::when_used_as_spec(spec_chapter)]
    pub fn chapter(&self) -> (r: u16)
        ensures
            r == self.chapter(),
    {
        self.chapter
    }

    pub fn set_position(&mut self, page: u32, chapter: u16)
        ensures
            final(self).page() == page,
            final(self).chapter() == chapter,
    {
        self.page = page;
        self.chapter = chapter;
    }
}

impl Default for ReaderState {
    fn default() -> (r: ReaderState)
        ensures
            r.page() == 0,
            r.chapter() == 0,
    {
        ReaderState::new()
    }
}

} // verus!
