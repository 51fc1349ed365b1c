use crate::codec::{be_u16_at, be_u32_at, read_u16, read_u32};
use crate::errors::DbError;
use vstd::prelude::*;

verus! {

/// The size in bytes of the file header at the start of the database file.
pub const HEADER_SIZE: usize = 100;

/// Whether the first sixteen bytes of `b` equal the format's fixed signature:
/// the ASCII string "SQLite format 3" terminated by a zero byte.
pub open spec fn is_valid_magic(b: Seq<u8>) -> bool {
    &&& b.len() >= 16
    &&& b[0] == 0x53
    &&& b[1] == 0x51
    &&& b[2] == 0x4c
    &&& b[3] == 0x69
    &&& b[4] == 0x74
    &&& b[5] == 0x65
    &&& b[6] == 0x20
    &&& b[7] == 0x66
    &&& b[8] == 0x6f
    &&& b[9] == 0x72
    &&& b[10] == 0x6d
    &&& b[11] == 0x61
    &&& b[12] == 0x74
    &&& b[13] == 0x20
    &&& b[14] == 0x33
    &&& b[15] == 0x00
}

/// The validated file header of a database file.
pub struct SqliteHeader {
    /// The sixteen signature bytes, kept as they were read.
    pub version_string: Vec<u8>,
    /// The declared page size, big-endian at byte offset 16.
    pub page_size: u16,
    /// The format version number, big-endian at byte offset 96.
    pub version: u32,
}

impl SqliteHeader {
    /// Validates the 100-byte file header: the signature must match exactly,
    /// and the page size and format version are read from their fixed offsets.
    /// A buffer shorter than the header is a bounds violation; a wrong
    /// signature byte, wherever it sits, is a format mismatch.
    pub fn new(buf: &[u8]) -> (r: Result<SqliteHeader, DbError>)
        ensures
            buf@.len() >= HEADER_SIZE && is_valid_magic(buf@) ==> (r matches Ok(h)
                && h.version_string@ == buf@.subrange(0, 16)
                && h.page_size == be_u16_at(buf@, 16)
                && h.version == be_u32_at(buf@, 96)),
            buf@.len() < HEADER_SIZE ==> r == Err::<SqliteHeader, DbError>(
                DbError::BoundsViolation,
            ),
            buf@.len() >= HEADER_SIZE && !is_valid_magic(buf@) ==> r == Err::<SqliteHeader, DbError>(
                DbError::FormatMismatch,
            ),
    {
        if buf.len() < HEADER_SIZE {
            return Err(DbError::BoundsViolation);
        }
        if !(buf[0] == 0x53 && buf[1] == 0x51 && buf[2] == 0x4c && buf[3] == 0x69 && buf[4] == 0x74
            && buf[5] == 0x65 && buf[6] == 0x20 && buf[7] == 0x66 && buf[8] == 0x6f && buf[9]
            == 0x72 && buf[10] == 0x6d && buf[11] == 0x61 && buf[12] == 0x74 && buf[13] == 0x20
            && buf[14] == 0x33 && buf[15] == 0x00) {
            return Err(DbError::FormatMismatch);
        }
        let mut version_string: Vec<u8> = Vec::new();
        let mut i: usize = 0;
        while i < 16
            invariant
                0 <= i <= 16,
                buf@.len() >= 100,
                version_string@ == buf@.subrange(0, i as int),
            decreases 16 - i,
        {
            version_string.push(buf[i]);
            proof {
                assert(version_string@ =~= buf@.subrange(0, i + 1));
            }
            i = i + 1;
        }
        let page_size = read_u16(buf, 16);
        let version = read_u32(buf, 96);
        Ok(SqliteHeader { version_string, page_size, version })
    }
}

} // verus!
