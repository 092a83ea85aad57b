//! The cursor over the entries of a directory.

use vstd::prelude::*;

verus! {

/// What an entry of a directory is.
#[derive(Debug, Clone, Copy, PartialEq, Eq, Structural)]
pub enum EntryKind {
    File,
    Directory,
    Device,
}

/// An entry of a directory.
#[derive(Debug, Clone, PartialEq, Eq)]
pub struct DirEntry {
    /// What the entry is.
    pub kind: EntryKind,
    /// Its size in bytes.
    pub size: usize,
    /// Its name.
    pub name: Vec<u8>,
}

/// A cursor over the entries of a directory: the handle of the iterator
/// resource, the number of entries fetched, and the last of them. The
/// entries are fetched by the user of the cursor and handed to it.
#[derive(Debug)]
pub struct Dir {
    ri: usize,
    curr_index: usize,
    entry: Option<DirEntry>,
}

impl Dir {
    /// The handle of the iterator resource.
    pub closed spec fn handle(&self) -> usize {
        self.ri
    }

    /// The number of entries fetched so far, as far as the machine counts.
    pub closed spec fn fetched(&self) -> usize {
        self.curr_index
    }

    /// The entry fetched last.
    pub closed spec fn last(&self) -> Option<DirEntry> {
        self.entry
    }

    /// A cursor on the iterator resource `ri`, before the first entry.
    pub fn open(ri: usize) -> (dir: Self)
        ensures
            dir.handle() == ri,
            dir.fetched() == 0,
            dir.last().is_none(),
    {
        Dir { ri, curr_index: 0, entry: None }
    }

    /// Takes in what a fetch of the next entry gave. An entry is counted
    /// and replaces the one before it; the end of the directory changes
    /// nothing. The result says whether there was an entry.
    pub fn next(&mut self, fetched: Option<DirEntry>) -> (more: bool)
        ensures
            final(self).handle() == old(self).handle(),
            more == fetched.is_some(),
            match fetched {
                Some(e) => {
                    &&& final(self).last() == Some(e)
                    &&& final(self).fetched() == if old(self).fetched() < usize::MAX {
                        (old(self).fetched() + 1) as usize
                    } else {
                        usize::MAX
                    }
                },
                None => {
                    &&& final(self).last() == old(self).last()
                    &&& final(self).fetched() == old(self).fetched()
                },
            },
    {
        match fetched {
            Some(e) => {
                if self.curr_index < usize::MAX {
                    self.curr_index = self.curr_index + 1;
                }
                self.entry = Some(e);
                true
            },
            None => false,
        }
    }

    /// The entry fetched last, if any was.
    pub fn entry(&self) -> (e: Option<&DirEntry>)
        ensures
            match e {
                Some(x) => self.last() == Some(*x),
                None => self.last().is_none(),
            },
    {
        self.entry.as_ref()
    }

    /// The number of entries fetched so far.
    pub fn index(&self) -> (n: usize)
        ensures
            n == self.fetched(),
    {
        self.curr_index
    }

    /// The handle of the iterator resource, for fetching.
    pub fn resource(&self) -> (ri: usize)
        ensures
            ri == self.handle(),
    {
        self.ri
    }

    /// Ends the cursor and gives the handle of its resource, which the
    /// caller releases.
    pub fn close(self) -> (ri: usize)
        ensures
            ri == self.handle(),
    {
        self.ri
    }
}

} // verus!
