//! The page that mutators poll, and that is protected to stop them.

use vstd::prelude::*;

verus! {

pub const SAFEPOINT_PAGE_SIZE: usize = 4096;

/// What has to be done to the page.
#[derive(Clone, Copy, PartialEq, Eq, Debug, Structural)]
pub enum PageAction {
    /// Nothing.
    Keep,
    /// It may not be read any more.
    Protect,
    /// It may be read again.
    Unprotect,
}

/// The state of the page, and whether the world is stopped.
#[derive(Clone, Copy, PartialEq, Eq, Debug, Structural)]
pub struct Safepoint {
    pub page: usize,
    pub enable_cnt: u8,
    pub gc_running: bool,
}

impl Safepoint {
    /// The page is protected exactly while somebody asks for it.
    pub open spec fn armed(&self) -> bool {
        self.enable_cnt > 0
    }

    pub fn new(page: usize) -> (r: Self)
        ensures
            r == (Safepoint { page, enable_cnt: 0, gc_running: false }),
    {
        Safepoint { page, enable_cnt: 0, gc_running: false }
    }

    /// Whether an address lies in the page.
    pub fn addr_in_safepoint(&self, addr: usize) -> (r: bool)
        requires
            self.page + 4096 <= usize::MAX,
        ensures
            r == (self.page != 0 && self.page <= addr < self.page + 4096),
    {
        if self.page == 0 {
            return false;
        }
        addr >= self.page && addr < self.page + SAFEPOINT_PAGE_SIZE
    }

    pub fn enable(&mut self) -> (r: PageAction)
        requires
            old(self).enable_cnt < u8::MAX,
        ensures
            *final(self) == (Safepoint {
                enable_cnt: (old(self).enable_cnt + 1) as u8,
                ..*old(self)
            }),
            r == if old(self).armed() {
                PageAction::Keep
            } else {
                PageAction::Protect
            },
    {
        let before: u8 = self.enable_cnt;
        self.enable_cnt = before + 1;
        if before != 0 {
            return PageAction::Keep;
        }
        PageAction::Protect
    }

    pub fn disable(&mut self) -> (r: PageAction)
        requires
            old(self).enable_cnt > 0,
        ensures
            *final(self) == (Safepoint {
                enable_cnt: (old(self).enable_cnt - 1) as u8,
                ..*old(self)
            }),
            r == if final(self).armed() {
                PageAction::Keep
            } else {
                PageAction::Unprotect
            },
    {
        self.enable_cnt = self.enable_cnt - 1;
        if self.enable_cnt != 0 {
            return PageAction::Keep;
        }
        PageAction::Unprotect
    }

    /// Starts to stop the world, unless another thread does. Only one thread at a time may.
    /// One that may not waits until the other is done.
    pub fn enter(&mut self) -> (r: Option<PageAction>)
        requires
            old(self).enable_cnt < u8::MAX,
        ensures
            r == if old(self).gc_running {
                None
            } else if old(self).armed() {
                Some(PageAction::Keep)
            } else {
                Some(PageAction::Protect)
            },
            *final(self) == if old(self).gc_running {
                *old(self)
            } else {
                Safepoint {
                    gc_running: true,
                    enable_cnt: (old(self).enable_cnt + 1) as u8,
                    ..*old(self)
                }
            },
    {
        if self.gc_running {
            return None;
        }
        self.gc_running = true;
        Some(self.enable())
    }

    /// Lets the world go on.
    pub fn end(&mut self) -> (r: PageAction)
        requires
            old(self).enable_cnt > 0,
        ensures
            *final(self) == (Safepoint {
                gc_running: false,
                enable_cnt: (old(self).enable_cnt - 1) as u8,
                ..*old(self)
            }),
            r == if final(self).armed() {
                PageAction::Keep
            } else {
                PageAction::Unprotect
            },
    {
        let action: PageAction = self.disable();
        self.gc_running = false;
        action
    }

    /// Whether a thread that waits has to wait on.
    pub fn wait_gc(&self) -> (r: bool)
        ensures
            r == self.gc_running,
    {
        self.gc_running
    }
}

/// Whoever stopped the world and lets it go on leaves the page as it was.
pub proof fn lemma_enter_end(s: Safepoint)
    requires
        !s.gc_running,
        s.enable_cnt < u8::MAX,
    ensures
        ({
            let stopped = Safepoint {
                gc_running: true,
                enable_cnt: (s.enable_cnt + 1) as u8,
                ..s
            };
            let resumed = Safepoint {
                gc_running: false,
                enable_cnt: (stopped.enable_cnt - 1) as u8,
                ..stopped
            };
            &&& stopped.armed()
            &&& resumed == s
        }),
{
}

} // verus!
