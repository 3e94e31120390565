//! The eight bytes at the front of every log file: `[magic:4][version:2]`
//! and two reserved bytes, numbers lowest byte first.
//!
//! The write-ahead log and the manifest stop cleanly at the first frame that
//! does not verify, because that is what a crash in the middle of an append
//! leaves. A file in a format that this build does not know would look the
//! same, and a manifest that was read as empty would have every table in the
//! directory reclaimed. The header turns that into an error.

use vstd::prelude::*;

use crate::bytes;
use crate::error::{Error, ErrorView, Result};
use crate::hash;
use crate::text;

verus! {

/// Bytes at the front of a write-ahead log or a manifest.
pub const HEADER_LEN: usize = 8;

/// Format version of the write-ahead log that this build writes.
///
/// * 1: one record per frame, CRC-32/ISO-HDLC.
/// * 2: a count and then that many records, so that a batch is one frame under
///   one checksum and a crash takes all of it or none. Same checksum.
/// * 3: the same frames under CRC32C.
pub const WAL_VERSION: u16 = 3;

/// Format version of the manifest that this build writes.
///
/// * 1: CRC-32/ISO-HDLC.
/// * 2: CRC32C.
pub const MANIFEST_VERSION: u16 = 2;

/// Marks the front of a write-ahead log: `LSMW`.
pub const WAL_MAGIC: &'static [u8; 4] = &[76, 83, 77, 87];

/// Marks the front of a manifest: `LSMM`.
pub const MANIFEST_MAGIC: &'static [u8; 4] = &[76, 83, 77, 77];

/// Which checksum protects the frames of a file. There are two because one
/// replaced the other, and the files of older builds keep verifying.
#[derive(Debug, Clone, Copy, PartialEq, Eq, Structural)]
pub enum Checksum {
    /// CRC-32/ISO-HDLC.
    IsoHdlc,
    /// CRC32C (Castagnoli).
    Castagnoli,
}

impl Checksum {
    /// The checksum of `bytes`.
    pub open spec fn of(self, bytes: Seq<u8>) -> u32 {
        match self {
            Checksum::IsoHdlc => hash::iso_hdlc(bytes),
            Checksum::Castagnoli => hash::castagnoli(bytes),
        }
    }

    /// Compute the checksum of `bytes`.
    pub fn hash(self, bytes: &[u8]) -> (r: u32)
        ensures
            r == self.of(bytes@),
    {
        match self {
            Checksum::IsoHdlc => hash::crc_iso_hdlc(bytes),
            Checksum::Castagnoli => hash::crc_castagnoli(bytes),
        }
    }
}

/// What the first bytes of a file turned out to be.
#[derive(Debug, Clone, Copy, PartialEq, Eq, Structural)]
pub enum Kind {
    /// The file is empty.
    Empty,
    /// A header that this build understands. Frames start behind it.
    Versioned(u16),
    /// No header: the file was written before there were headers, and its
    /// frames start at its front.
    Legacy,
}

/// The checksum of a write-ahead log of this kind.
pub open spec fn wal_checksum_of(kind: Kind) -> Checksum {
    if kind matches Kind::Versioned(v) && v >= 3 {
        Checksum::Castagnoli
    } else {
        Checksum::IsoHdlc
    }
}

/// The checksum of a manifest of this kind.
pub open spec fn manifest_checksum_of(kind: Kind) -> Checksum {
    if kind matches Kind::Versioned(v) && v >= 2 {
        Checksum::Castagnoli
    } else {
        Checksum::IsoHdlc
    }
}

/// The header of a new file.
pub open spec fn header_bytes(magic: Seq<u8>, version: u16) -> Seq<u8> {
    magic + bytes::le(version as nat, 2) + seq![0u8, 0u8]
}

/// What a file that starts with `front` is, or why this build refuses it.
pub open spec fn classified(
    front: Seq<u8>,
    magic: Seq<u8>,
    newest: u16,
    what: Seq<char>,
) -> core::result::Result<Kind, ErrorView> {
    if front.len() == 0 {
        Ok(Kind::Empty)
    } else if front.len() >= HEADER_LEN && front.subrange(0, 4) == magic {
        let version = bytes::from_le(front.subrange(4, 6)) as u16;
        if version > newest {
            Err(
                ErrorView::BadFormat(
                    what + " is version "@ + text::digits(version as nat)
                        + "; this build understands up to "@ + text::digits(newest as nat),
                ),
            )
        } else {
            Ok(Kind::Versioned(version))
        }
    } else {
        Ok(Kind::Legacy)
    }
}

/// Where frames start in a file of this kind.
pub open spec fn first_frame(kind: Kind) -> nat {
    if kind == Kind::Legacy {
        0
    } else {
        HEADER_LEN as nat
    }
}

/// Which CRC a file's frames carry. A write-ahead log has CRC32C from version 3
/// on and a manifest from version 2 on; older files, and files from before there
/// were headers, have CRC-32/ISO-HDLC. Either covers all of the bytes.
pub proof fn checksums_by_version(version: u16, bytes: Seq<u8>)
    ensures
        wal_checksum_of(Kind::Versioned(version)).of(bytes) == if version >= 3 {
            hash::castagnoli(bytes)
        } else {
            hash::iso_hdlc(bytes)
        },
        manifest_checksum_of(Kind::Versioned(version)).of(bytes) == if version >= 2 {
            hash::castagnoli(bytes)
        } else {
            hash::iso_hdlc(bytes)
        },
        wal_checksum_of(Kind::Legacy).of(bytes) == hash::iso_hdlc(bytes),
        manifest_checksum_of(Kind::Legacy).of(bytes) == hash::iso_hdlc(bytes),
{
}

/// What stands in a header: the four bytes that mark the file, the version,
/// lowest byte first, and two zeros.
pub proof fn header_layout(magic: Seq<u8>, version: u16)
    requires
        magic.len() == 4,
    ensures
        header_bytes(magic, version).len() == 8,
        header_bytes(magic, version).take(4) == magic,
        header_bytes(magic, version)[4] == version % 256,
        header_bytes(magic, version)[5] == version / 256,
        header_bytes(magic, version)[6] == 0,
        header_bytes(magic, version)[7] == 0,
{
    header_len(magic, version);
    reveal_with_fuel(bytes::le, 3);
    assert(header_bytes(magic, version).take(4) =~= magic);
}

/// A header has eight bytes.
pub proof fn header_len(magic: Seq<u8>, version: u16)
    requires
        magic.len() == 4,
    ensures
        header_bytes(magic, version).len() == HEADER_LEN,
{
    bytes::le_len(version as nat, 2);
}

/// A file that starts with a header that a build wrote is of that version to
/// every build that is as new; an older build refuses it.
pub proof fn header_round_trip(
    magic: Seq<u8>,
    version: u16,
    rest: Seq<u8>,
    newest: u16,
    what: Seq<char>,
)
    requires
        magic.len() == 4,
    ensures
        version <= newest ==> classified(header_bytes(magic, version) + rest, magic, newest, what)
            == Ok::<Kind, ErrorView>(Kind::Versioned(version)),
        version > newest ==> classified(
            header_bytes(magic, version) + rest,
            magic,
            newest,
            what,
        ) is Err,
{
    let file = header_bytes(magic, version) + rest;
    header_len(magic, version);
    bytes::spans();
    bytes::le_round_trip(version as nat, 2);
    assert(file.subrange(0, 4) =~= magic);
    assert(file.subrange(4, 6) =~= bytes::le(version as nat, 2));
}

/// The checksum of a write-ahead log.
pub fn wal_checksum(kind: Kind) -> (r: Checksum)
    ensures
        r == wal_checksum_of(kind),
{
    match kind {
        Kind::Versioned(v) => if v >= 3 {
            Checksum::Castagnoli
        } else {
            Checksum::IsoHdlc
        },
        _ => Checksum::IsoHdlc,
    }
}

/// The checksum of a manifest.
pub fn manifest_checksum(kind: Kind) -> (r: Checksum)
    ensures
        r == manifest_checksum_of(kind),
{
    match kind {
        Kind::Versioned(v) => if v >= 2 {
            Checksum::Castagnoli
        } else {
            Checksum::IsoHdlc
        },
        _ => Checksum::IsoHdlc,
    }
}

/// The eight bytes to write at the front of a new file.
pub fn encode(magic: &[u8; 4], version: u16) -> (r: [u8; HEADER_LEN])
    ensures
        r@ == header_bytes(magic@, version),
{
    // The reserved bytes leave room for a flag that does not move the frames.
    let r: [u8; HEADER_LEN] = [
        magic[0],
        magic[1],
        magic[2],
        magic[3],
        (version % 256) as u8,
        (version / 256) as u8,
        0,
        0,
    ];
    proof {
        reveal_with_fuel(bytes::le, 3);
        assert(r@ =~= header_bytes(magic@, version));
    }
    r
}

/// Classify the front of a file.
pub fn classify(front: &[u8], magic: &[u8; 4], newest: u16, what: &str) -> (r: Result<Kind>)
    ensures
        match classified(front@, magic@, newest, what@) {
            Ok(k) => r is Ok && r->Ok_0 == k,
            Err(e) => r is Err && r->Err_0@ == e,
        },
{
    if front.len() == 0 {
        return Ok(Kind::Empty);
    }
    if front.len() >= HEADER_LEN && bytes::same(bytes::part(front, 0, 4), magic.as_slice()) {
        let version: u16 = bytes::get_u16(front, 4);
        if version > newest {
            let mut m = text::joined(what, " is version ");
            m.append(text::decimal(version as u64).as_str());
            m.append("; this build understands up to ");
            m.append(text::decimal(newest as u64).as_str());
            return Err(Error::BadFormat(m));
        }
        return Ok(Kind::Versioned(version));
    }
    // Either a file from before headers or one that is not ours. The frame
    // parser refuses what does not verify, so a foreign file replays to nothing
    // rather than to something wrong.
    Ok(Kind::Legacy)
}

/// Where frames start.
pub fn frames_start(kind: Kind) -> (r: usize)
    ensures
        r == first_frame(kind),
{
    match kind {
        Kind::Legacy => 0,
        _ => HEADER_LEN,
    }
}

/// What decides of which kind a file is: whether it is empty, and else whether it has a
/// header. Frames start behind the header, or at the front where there is none.
pub proof fn kinds_of_files(front: Seq<u8>, magic: Seq<u8>, newest: u16, what: Seq<char>)
    requires
        magic.len() == 4,
    ensures
        classified(front, magic, newest, what) == Ok::<Kind, ErrorView>(Kind::Empty) <==> front.len()
            == 0,
        classified(front, magic, newest, what) == Ok::<Kind, ErrorView>(Kind::Legacy)
            <==> front.len() > 0 && (front.len() < 8 || front.take(4) != magic),
        front.len() >= 8 && front.take(4) == magic ==> ({
            let version = front[4] + 256 * front[5];
            if version <= newest {
                classified(front, magic, newest, what) == Ok::<Kind, ErrorView>(
                    Kind::Versioned(version as u16),
                )
            } else {
                classified(front, magic, newest, what) is Err
            }
        }),
        first_frame(Kind::Legacy) == 0,
        forall|v: u16| #[trigger] first_frame(Kind::Versioned(v)) == 8,
{
    if front.len() >= 8 {
        assert(front.subrange(0, 4) =~= front.take(4));
        let s = front.subrange(4, 6);
        reveal_with_fuel(bytes::from_le, 3);
        assert(s.drop_first().drop_first() =~= Seq::empty());
        assert(bytes::from_le(s) == front[4] + 256 * front[5]);
    }
}

} // verus!
