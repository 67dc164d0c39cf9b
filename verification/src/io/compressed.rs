//! Compressed file input: which decompressor a file needs.
//!
//! Detection is by magic bytes, so misnamed extensions work as long as the
//! outer layer is one we understand.

use vstd::prelude::*;

verus! {

#[derive(Debug, Clone, Copy, PartialEq, Eq, Structural)]
pub enum Compression {
    Plain,
    Gzip,
    Zstd,
}

impl Compression {
    /// What the first bytes of a file say.
    pub open spec fn of_magic(head: Seq<u8>) -> Compression {
        if head.len() >= 2 && head[0] == 0x1f && head[1] == 0x8b {
            Compression::Gzip
        } else if head.len() >= 4 && head[0] == 0x28 && head[1] == 0xb5 && head[2] == 0x2f
            && head[3] == 0xfd {
            Compression::Zstd
        } else {
            Compression::Plain
        }
    }

    /// Inspect the first bytes of a file. `Compression::Plain` if they do not
    /// match a known magic.
    pub fn detect(head: &[u8]) -> (r: Compression)
        ensures
            r == Compression::of_magic(head@),
    {
        if head.len() >= 2 && head[0] == 0x1f && head[1] == 0x8b {
            return Compression::Gzip;
        }
        if head.len() >= 4 && head[0] == 0x28 && head[1] == 0xb5 && head[2] == 0x2f && head[3]
            == 0xfd {
            return Compression::Zstd;
        }
        Compression::Plain
    }
}

/// A file is told by its first bytes, whatever follows them: two for gzip, four
/// for zstd. What starts otherwise is taken as it is.
pub proof fn law_magic_bytes_decide(rest: Seq<u8>)
    ensures
        Compression::of_magic(seq![0x1fu8, 0x8bu8] + rest) == Compression::Gzip,
        Compression::of_magic(seq![0x28u8, 0xb5u8, 0x2fu8, 0xfdu8] + rest) == Compression::Zstd,
        rest.len() < 2 || rest[0] != 0x1f && rest[0] != 0x28 ==> Compression::of_magic(rest)
            == Compression::Plain,
{
}

} // verus!
