//! Follow mode: what to do when a followed file changes under the reader.
//!
//! The reader polls the file's identity and size; this module keeps the
//! position and decides when the file has to be opened again.

use vstd::prelude::*;

verus! {

/// What a look at the file calls for.
#[derive(Debug, Clone, Copy, PartialEq, Eq, Structural)]
pub enum Rotation {
    /// The same file, still as long as what was read: go on.
    Unchanged,
    /// Another file stands at the path (rename and create): open it and read
    /// it from the start.
    Replaced,
    /// The same file has become shorter than what was read (copytruncate):
    /// open it again and read it from the start.
    Truncated,
}

/// The identity of the file being read, and the position in it.
#[derive(Debug, Clone, Copy, PartialEq, Eq, Structural)]
pub struct TailPosition {
    pub inode: u64,
    /// Offset that the next read comes from.
    pub read_pos: u64,
}

/// What a look at the file calls for. A path that cannot be looked at changes
/// nothing.
pub open spec fn rotation_of(at: TailPosition, seen: Option<(u64, u64)>) -> Rotation {
    match seen {
        None => Rotation::Unchanged,
        Some((inode, size)) => if inode != at.inode {
            Rotation::Replaced
        } else if size < at.read_pos {
            Rotation::Truncated
        } else {
            Rotation::Unchanged
        },
    }
}

impl TailPosition {
    /// Start at the end of what the file holds now: only new writes are seen.
    pub fn at_end(inode: u64, size: u64) -> (r: Self)
        ensures
            r.inode == inode,
            r.read_pos == size,
    {
        TailPosition { inode, read_pos: size }
    }

    /// Start at the beginning, to see existing content first.
    pub fn at_start(inode: u64) -> (r: Self)
        ensures
            r.inode == inode,
            r.read_pos == 0,
    {
        TailPosition { inode, read_pos: 0 }
    }

    /// Bytes were consumed from the stream.
    pub fn consume(&mut self, amt: u64)
        ensures
            final(self).inode == old(self).inode,
            final(self).read_pos == if old(self).read_pos + amt > u64::MAX {
                u64::MAX as int
            } else {
                old(self).read_pos + amt
            },
    {
        self.read_pos = self.read_pos.saturating_add(amt);
    }

    /// Take a look at the inode and size that the path has now. Where the file
    /// has to be opened again, the position is that of its start.
    pub fn check_rotation(&mut self, seen: Option<(u64, u64)>) -> (r: Rotation)
        ensures
            r == rotation_of(*old(self), seen),
            match r {
                Rotation::Unchanged => *final(self) == *old(self),
                Rotation::Replaced => (seen matches Some((inode, size)) && final(self).inode == inode)
                    && final(self).read_pos == 0,
                Rotation::Truncated => final(self).inode == old(self).inode
                    && final(self).read_pos == 0,
            },
    {
        match seen {
            None => Rotation::Unchanged,
            Some((inode, size)) => {
                if inode != self.inode {
                    self.inode = inode;
                    self.read_pos = 0;
                    Rotation::Replaced
                } else if size < self.read_pos {
                    self.read_pos = 0;
                    Rotation::Truncated
                } else {
                    Rotation::Unchanged
                }
            },
        }
    }
}

/// A look at the file leaves the reader in the file that stands at the path, at
/// a place that it has: where it was, if nothing was replaced or cut off, and
/// else at the start. Without a look nothing changes.
pub proof fn law_position_lies_in_the_file(at: TailPosition, inode: u64, size: u64)
    ensures
        rotation_of(at, None) == Rotation::Unchanged,
        rotation_of(at, Some((inode, size))) == Rotation::Unchanged <==> inode == at.inode
            && at.read_pos <= size,
        rotation_of(at, Some((inode, size))) == Rotation::Truncated <==> inode == at.inode
            && at.read_pos > size,
        rotation_of(at, Some((inode, size))) == Rotation::Replaced <==> inode != at.inode,
{
}

} // verus!
