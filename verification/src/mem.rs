//! Loading machine code into executable memory: the size of the region and
//! the order of the host's actions. The pages are writable first and
//! executable afterwards, never both.

use vstd::prelude::*;

verus! {

/// The size of a page of executable memory, in bytes.
pub const PAGE_SIZE: usize = 4096;

/// The least multiple of the page size that holds `len` bytes.
pub open spec fn region_size_spec(len: int) -> int {
    ((len + PAGE_SIZE - 1) / (PAGE_SIZE as int)) * PAGE_SIZE
}

/// The size of the region to allocate for `len` bytes of machine code: `len`
/// rounded up to whole pages, or `None` where that does not fit a `usize`.
pub fn region_size(len: usize) -> (r: Option<usize>)
    ensures
        match r {
            Some(size) => size == region_size_spec(len as int),
            None => region_size_spec(len as int) > usize::MAX,
        },
        r matches Some(size) ==> len <= size < len + PAGE_SIZE && size % PAGE_SIZE == 0,
{
    let pages: usize = len / PAGE_SIZE;
    let rest: usize = len % PAGE_SIZE;
    let whole: usize = pages * PAGE_SIZE;
    assert(len == whole + rest);
    if rest == 0 {
        assert(region_size_spec(len as int) == whole) by {
            assert((pages * 4096 + 4095) / 4096 == pages);
        }
        assert(whole % PAGE_SIZE == 0) by {
            assert((pages * 4096) % 4096 == 0);
        }
        Some(whole)
    } else {
        assert(region_size_spec(len as int) == whole + PAGE_SIZE) by {
            assert((pages * 4096 + rest + 4095) / 4096 == pages + 1);
        }
        if whole > usize::MAX - PAGE_SIZE {
            None
        } else {
            assert((whole + PAGE_SIZE) % (PAGE_SIZE as int) == 0) by {
                assert((pages * 4096 + 4096) % 4096 == 0);
            }
            Some(whole + PAGE_SIZE)
        }
    }
}

/// How far the loading of one buffer of machine code has come.
#[derive(Debug, Clone, Copy, PartialEq, Eq, Structural)]
pub enum Stage {
    /// The region was asked for.
    Allocating,
    /// The region is there, writable and not executable; the copy was asked
    /// for.
    Copying,
    /// The region holds the code; the change to executable and not writable
    /// was asked for.
    Protecting,
    /// The region holds the code and is executable and not writable.
    Ready,
    /// A step failed, or there was nothing to load. Nothing more is done.
    Failed,
}

/// What the host is to do next.
#[derive(Debug, Clone, Copy, PartialEq, Eq, Structural)]
pub enum Action {
    /// Allocate a page-aligned region of this many bytes, readable and
    /// writable, not executable.
    Allocate(usize),
    /// Copy the machine code, this many bytes, to the start of the region.
    Copy(usize),
    /// Make the region of this many bytes readable and executable, and no
    /// longer writable.
    Protect(usize),
    /// Hand out the start of the region as the routine's entry point.
    Enter,
    /// Stop with a fatal error.
    Abort,
}

/// The loading of one buffer of machine code into executable memory.
#[derive(Debug, Clone, Copy, PartialEq, Eq, Structural)]
pub struct Loader {
    /// How far the loading has come.
    pub stage: Stage,
    /// The length of the machine code in bytes.
    pub len: usize,
    /// The size of the region in bytes.
    pub size: usize,
}

/// The loader and the first action for `len` bytes of machine code.
pub open spec fn start_spec(len: usize) -> (Loader, Action) {
    if len == 0 || region_size_spec(len as int) > usize::MAX {
        (Loader { stage: Stage::Failed, len, size: 0 }, Action::Abort)
    } else {
        let size = region_size_spec(len as int) as usize;
        (Loader { stage: Stage::Allocating, len, size }, Action::Allocate(size))
    }
}

/// The loader and the next action after the host reports whether the last
/// action succeeded.
pub open spec fn advance_spec(l: Loader, done: bool) -> (Loader, Action) {
    if !done {
        (Loader { stage: Stage::Failed, ..l }, Action::Abort)
    } else {
        match l.stage {
            Stage::Allocating => (Loader { stage: Stage::Copying, ..l }, Action::Copy(l.len)),
            Stage::Copying => (Loader { stage: Stage::Protecting, ..l }, Action::Protect(l.size)),
            Stage::Protecting => (Loader { stage: Stage::Ready, ..l }, Action::Enter),
            Stage::Ready => (l, Action::Enter),
            Stage::Failed => (l, Action::Abort),
        }
    }
}

impl Loader {
    /// Begins the loading of `len` bytes of machine code. The first action is
    /// to allocate `len` rounded up to whole pages, or to stop where there is
    /// no code or the rounded size does not fit.
    pub fn start(len: usize) -> (r: (Loader, Action))
        ensures
            r == start_spec(len),
            r.1 matches Action::Allocate(size) ==> len <= size && size % PAGE_SIZE == 0,
    {
        if len == 0 {
            return (Loader { stage: Stage::Failed, len, size: 0 }, Action::Abort);
        }
        match region_size(len) {
            Some(size) => (Loader { stage: Stage::Allocating, len, size }, Action::Allocate(size)),
            None => (Loader { stage: Stage::Failed, len, size: 0 }, Action::Abort),
        }
    }

    /// Takes the host's report on the last action and says what to do next.
    /// The order is fixed: allocate writable, copy, make executable, enter;
    /// any failure ends the loading.
    pub fn advance(self, done: bool) -> (r: (Loader, Action))
        ensures
            r == advance_spec(self, done),
    {
        if !done {
            return (Loader { stage: Stage::Failed, len: self.len, size: self.size }, Action::Abort);
        }
        match self.stage {
            Stage::Allocating => (
                Loader { stage: Stage::Copying, len: self.len, size: self.size },
                Action::Copy(self.len),
            ),
            Stage::Copying => (
                Loader { stage: Stage::Protecting, len: self.len, size: self.size },
                Action::Protect(self.size),
            ),
            Stage::Protecting => (
                Loader { stage: Stage::Ready, len: self.len, size: self.size },
                Action::Enter,
            ),
            Stage::Ready => (self, Action::Enter),
            Stage::Failed => (self, Action::Abort),
        }
    }
}

/// The entry point is handed out only for a region that was made executable
/// after the copy: a loader asks to enter only from the stage in which the
/// protection was asked for, or once it is ready, and it reaches those stages
/// only through the copy.
pub proof fn lemma_enter_follows_protect(l: Loader, done: bool)
    ensures
        advance_spec(l, done).1 is Enter ==> done && (l.stage is Protecting || l.stage is Ready),
        advance_spec(l, done).0.stage is Ready ==> done && (l.stage is Protecting || l.stage
            is Ready),
        advance_spec(l, done).0.stage is Protecting ==> done && l.stage is Copying,
        advance_spec(l, done).0.stage is Copying ==> done && l.stage is Allocating,
        advance_spec(l, done).1 is Copy ==> l.stage is Allocating,
        !(advance_spec(l, done).1 is Allocate),
{
}

} // verus!
