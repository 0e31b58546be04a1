//! The counters behind the progress display: how much is wanted, how much is there.

use vstd::prelude::*;

verus! {

/// How far the transfer has come, in payload bytes.
#[derive(Debug, PartialEq, Eq, Clone, Copy)]
pub struct ProgressBar {
    pub target: usize,
    pub current: usize,
}

impl ProgressBar {
    /// A bar for a payload of `target` bytes, of which `current` are there.
    pub fn new(target: usize, current: usize) -> (bar: ProgressBar)
        ensures
            bar.target == target,
            bar.current == current,
    {
        let mut bar = ProgressBar { target, current: 0 };
        bar.update(current);
        bar
    }

    /// Counts `add` more bytes as received.
    pub fn update(&mut self, add: usize)
        requires
            old(self).current + add <= usize::MAX,
        ensures
            final(self).target == old(self).target,
            final(self).current == old(self).current + add,
    {
        self.current += add;
    }

    /// Counts the whole payload as received.
    pub fn done(&mut self)
        ensures
            final(self).target == old(self).target,
            final(self).current == old(self).target,
    {
        self.current = self.target;
    }
}

} // verus!
