//! Sequential decoder for a small fixed-layout binary container format.
//!
//! The format has a top-level header — a four-byte signature, one-byte major
//! and minor versions and a big-endian entry count — and, at a caller-given
//! offset, per-entry headers: a four-byte filename stored byte-reversed,
//! four big-endian 32-bit fields (start offset, size, POSIX timestamp
//! seconds, sub-second ticks) and a two-byte flag field.  Decoding that
//! would run past the available bytes fails with
//! [`FwError::MalformedHeader`]; nothing here panics.

use vstd::prelude::*;

verus! {

/// The error kinds of this library.  Decoding reports `MalformedHeader`;
/// `Io` and `NameRecoveryFailure` exist for drivers that must classify a
/// failed file operation or a boundary whose name could not be recovered.
#[derive(Clone, Copy, Debug, PartialEq, Eq, Structural)]
pub enum FwError {
    Io,
    NameRecoveryFailure,
    MalformedHeader,
}

/// The big-endian 16-bit integer stored at `off`.
pub open spec fn be16(b: Seq<u8>, off: int) -> int {
    b[off] * 0x100 + b[off + 1]
}

/// The big-endian 32-bit integer stored at `off`.
pub open spec fn be32(b: Seq<u8>, off: int) -> int {
    b[off] * 0x100_0000 + b[off + 1] * 0x1_0000 + b[off + 2] * 0x100 + b[off + 3]
}

fn read_be16(b: &[u8], off: usize) -> (r: u16)
    requires
        off + 2 <= b@.len(),
    ensures
        r == be16(b@, off as int),
{
    let hi = b[off];
    let lo = b[off + 1];
    (hi as u16) * 0x100 + (lo as u16)
}

fn read_be32(b: &[u8], off: usize) -> (r: u32)
    requires
        off + 4 <= b@.len(),
    ensures
        r == be32(b@, off as int),
{
    let b0 = b[off];
    let b1 = b[off + 1];
    let b2 = b[off + 2];
    let b3 = b[off + 3];
    (b0 as u32) * 0x100_0000 + (b1 as u32) * 0x1_0000 + (b2 as u32) * 0x100 + (b3 as u32)
}

#[derive(Clone, Copy, Debug)]
pub struct Version {
    pub major: u8,
    pub minor: u8,
}

#[derive(Clone, Copy, Debug)]
pub struct Header {
    pub sign: [u8; 4],
    pub ver: Version,
    pub entries: u16,
}

#[derive(Clone, Copy, Debug)]
pub struct FileHeader {
    pub filename: [u8; 4],
    pub start: u32,
    pub size: u32,
    pub timestamp: u32,
    pub microtime: u32,
    pub flags: u16,
}

impl Header {
    /// Decodes the top-level header from the start of `bytes`: signature,
    /// major and minor version, big-endian entry count.  Fails exactly when
    /// fewer than eight bytes are available.
    pub fn new(bytes: &[u8]) -> (r: Result<Header, FwError>)
        ensures
            ({
                match r {
                    Ok(h) => {
                        &&& bytes@.len() >= 8
                        &&& h.sign@ == bytes@.subrange(0, 4)
                        &&& h.ver.major == bytes@[4]
                        &&& h.ver.minor == bytes@[5]
                        &&& h.entries == be16(bytes@, 6)
                    },
                    Err(e) => bytes@.len() < 8 && e == FwError::MalformedHeader,
                }
            }),
    {
        if bytes.len() < 8 {
            return Err(FwError::MalformedHeader);
        }
        let h = Header {
            sign: [bytes[0], bytes[1], bytes[2], bytes[3]],
            ver: Version { major: bytes[4], minor: bytes[5] },
            entries: read_be16(bytes, 6),
        };
        proof {
            assert(h.sign@ =~= bytes@.subrange(0, 4));
        }
        Ok(h)
    }
}

impl FileHeader {
    /// Decodes one per-entry header at `offset`: the four filename bytes
    /// (stored byte-reversed), four big-endian 32-bit fields and the
    /// big-endian flag word.  Fails exactly when the 22 bytes of the entry
    /// do not fit in `bytes`.
    pub fn new(bytes: &[u8], offset: usize) -> (r: Result<FileHeader, FwError>)
        ensures
            ({
                match r {
                    Ok(f) => {
                        &&& offset + 22 <= bytes@.len()
                        &&& f.filename@ == seq![
                            bytes@[offset + 3],
                            bytes@[offset + 2],
                            bytes@[offset + 1],
                            bytes@[offset as int],
                        ]
                        &&& f.start == be32(bytes@, offset + 4)
                        &&& f.size == be32(bytes@, offset + 8)
                        &&& f.timestamp == be32(bytes@, offset + 12)
                        &&& f.microtime == be32(bytes@, offset + 16)
                        &&& f.flags == be16(bytes@, offset + 20)
                    },
                    Err(e) => offset + 22 > bytes@.len() && e == FwError::MalformedHeader,
                }
            }),
    {
        if bytes.len() < 22 || offset > bytes.len() - 22 {
            return Err(FwError::MalformedHeader);
        }
        let f = FileHeader {
            filename: [bytes[offset + 3], bytes[offset + 2], bytes[offset + 1], bytes[offset]],
            start: read_be32(bytes, offset + 4),
            size: read_be32(bytes, offset + 8),
            timestamp: read_be32(bytes, offset + 12),
            microtime: read_be32(bytes, offset + 16),
            flags: read_be16(bytes, offset + 20),
        };
        proof {
            assert(f.filename@ =~= seq![
                bytes@[offset + 3],
                bytes@[offset + 2],
                bytes@[offset + 1],
                bytes@[offset as int],
            ]);
        }
        Ok(f)
    }
}

/// Decodes the top-level header and the first per-entry header that follows
/// the entry table: the entry sits `2 * entries` bytes after the eight
/// header bytes.  Fails exactly when either record runs past the bytes.
pub fn read_mpfs(bytes: &[u8]) -> (r: Result<(Header, FileHeader), FwError>)
    ensures
        ({
            match r {
                Ok((h, f)) => {
                    &&& bytes@.len() >= 8
                    &&& h.sign@ == bytes@.subrange(0, 4)
                    &&& h.ver.major == bytes@[4]
                    &&& h.ver.minor == bytes@[5]
                    &&& h.entries == be16(bytes@, 6)
                    &&& 8 + 2 * be16(bytes@, 6) + 22 <= bytes@.len()
                    &&& f.start == be32(bytes@, 8 + 2 * be16(bytes@, 6) + 4)
                    &&& f.size == be32(bytes@, 8 + 2 * be16(bytes@, 6) + 8)
                    &&& f.timestamp == be32(bytes@, 8 + 2 * be16(bytes@, 6) + 12)
                    &&& f.microtime == be32(bytes@, 8 + 2 * be16(bytes@, 6) + 16)
                    &&& f.flags == be16(bytes@, 8 + 2 * be16(bytes@, 6) + 20)
                    &&& f.filename@ == seq![
                        bytes@[8 + 2 * be16(bytes@, 6) + 3],
                        bytes@[8 + 2 * be16(bytes@, 6) + 2],
                        bytes@[8 + 2 * be16(bytes@, 6) + 1],
                        bytes@[8 + 2 * be16(bytes@, 6)],
                    ]
                },
                Err(e) => (bytes@.len() < 8 || 8 + 2 * be16(bytes@, 6) + 22 > bytes@.len())
                    && e == FwError::MalformedHeader,
            }
        }),
{
    let h = match Header::new(bytes) {
        Ok(h) => h,
        Err(e) => {
            return Err(e);
        },
    };
    let offset = 8 + 2 * (h.entries as usize);
    let f = match FileHeader::new(bytes, offset) {
        Ok(f) => f,
        Err(e) => {
            return Err(e);
        },
    };
    Ok((h, f))
}

} // verus!
