//! The decoders, for feeding arbitrary bytes to. Each of them answers with a
//! value or an error, whatever the bytes are.

use vstd::prelude::*;

use crate::disk;
use crate::disk::Volume;
use crate::error::Result;
use crate::fs::{Fs, OpenMode};
use crate::record;
use crate::record::{Record, RecordView};
use crate::sstable;
use crate::sstable::SsTableReader;
use crate::wal;
use crate::wal::Wal;

verus! {

/// Decode one record from the front of `bytes`.
pub fn decode_record(bytes: &[u8]) -> (r: Result<()>)
    ensures
        match record::decoded(bytes@, 0) {
            Ok(_) => r is Ok,
            Err(e) => r is Err && r->Err_0@ == e,
        },
{
    let mut pos: usize = 0;
    match Record::decode_at(bytes, &mut pos) {
        Ok(_) => Ok(()),
        Err(e) => Err(e),
    }
}

/// Replay the write-ahead log at `path`.
pub fn replay_wal<F: Fs, V: Volume<F>>(fs: V, path: &str) -> (r: Result<()>)
    ensures
        disk::ended::<F>(Seq::empty()),
        r is Ok ==> exists|records: Seq<RecordView>| #[trigger]
            wal::read_back::<F>(path@, records),
        r matches Err(e) ==> wal::unreplayed::<F>(path@, OpenMode::Read, e@),
{
    match Wal::<F>::replay(fs, path) {
        Ok(_) => Ok(()),
        Err(e) => Err(e),
    }
}

/// Open the table at `path`.
pub fn open_sstable<F: Fs, V: Volume<F>>(fs: V, path: &str) -> (r: Result<()>)
    ensures
        disk::ended::<F>(Seq::empty()),
        r is Ok ==> exists|file: Seq<u8>|
            F::answered(path@, OpenMode::Read, Ok(file)) && (#[trigger] sstable::parsed(
                file,
            )) is Ok,
        r matches Err(e) ==> sstable::reader::unopened::<F>(path@, e@),
{
    match SsTableReader::<F>::open(fs, path, true) {
        Ok(t) => {
            proof {
                t.wf_facts();
            }
            Ok(())
        },
        Err(e) => Err(e),
    }
}

} // verus!
