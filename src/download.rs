//! The progress of a streaming download.
use vstd::prelude::*;

verus! {

/// How far a download has come.
#[derive(Clone, Copy, Debug, PartialEq, Eq)]
pub struct DownloadProgress {
    /// The size that the server announced, if any.
    pub total_size: Option<u64>,
    /// The number of bytes received so far.
    pub current_size: u64,
    /// Whether the body has ended.
    pub finished: bool,
}

impl DownloadProgress {
    /// The progress of a download that has just started, with the size the
    /// server announced.
    pub fn new(total_size: Option<u64>) -> (r: DownloadProgress)
        ensures
            r == (DownloadProgress { total_size, current_size: 0, finished: false }),
    {
        DownloadProgress { total_size, current_size: 0, finished: false }
    }

    /// Records what the next pull of the body gave: a chunk of `len` bytes,
    /// or `None` at the end of the body; an empty chunk ends the body too.
    /// Returns the number of bytes received by this pull: 0 once the body
    /// has ended, and on every pull after that.
    pub fn advance(&mut self, chunk: Option<usize>) -> (r: usize)
        ensures
            final(self).total_size == old(self).total_size,
            old(self).finished ==> r == 0 && *final(self) == *old(self),
            !old(self).finished ==> match chunk {
                None => r == 0 && final(self).finished && final(self).current_size
                    == old(self).current_size,
                Some(n) => r == n && final(self).finished == (n == 0) && final(self).current_size == (if old(
                    self,
                ).current_size + n <= u64::MAX {
                    old(self).current_size + n
                } else {
                    u64::MAX as int
                }),
            },
    {
        if self.finished {
            return 0;
        }
        match chunk {
            None => {
                self.finished = true;
                0
            },
            Some(n) => {
                self.current_size = self.current_size.saturating_add(n as u64);
                if n == 0 {
                    self.finished = true;
                }
                n
            },
        }
    }
}

} // verus!
