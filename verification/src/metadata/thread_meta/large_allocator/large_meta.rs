use vstd::prelude::*;

use crate::metadata::thread_meta::large_allocator::Page;

verus! {

/// What is kept of a live large allocation: the requested size, the page in
/// which the region before it ended (its first page, which it may share with
/// that region), and the page in which it ends (its last page, which it may
/// share with the region after it).
#[derive(Clone, Copy, Debug, PartialEq, Eq)]
pub struct LargeMeta {
    pub size: u64,
    pub first_page: Page,
    pub last_page: Page,
}

impl LargeMeta {
    pub fn new_in(size: u64, first_page: Page, second_page: Page) -> (meta: LargeMeta)
        ensures
            meta.size == size,
            meta.first_page == first_page,
            meta.last_page == second_page,
    {
        LargeMeta { size, first_page, last_page: second_page }
    }
}

}
