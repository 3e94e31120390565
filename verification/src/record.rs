//! One versioned mutation of one key, and its bytes.
//!
//! The bytes of a record are `[seq:8][type:1][key_len:4][key][val_len:4][val]`,
//! numbers lowest byte first. The type is 0 for a put and 1 for a tombstone,
//! whose value has no bytes.

use vstd::prelude::*;

use crate::bytes;
use crate::error::{Error, ErrorView, Result};
use crate::text;

verus! {

/// A mutation of `key` at the sequence number `seq`. Without a value it is a
/// tombstone: the mark of a delete.
#[derive(Debug, PartialEq, Eq)]
pub struct Record {
    pub key: Vec<u8>,
    pub value: Option<Vec<u8>>,
    pub seq: u64,
}

/// The content of a [`Record`].
#[verifier::ext_equal]
pub struct RecordView {
    pub key: Seq<u8>,
    pub value: Option<Seq<u8>>,
    pub seq: u64,
}

impl View for Record {
    type V = RecordView;

    open spec fn view(&self) -> RecordView {
        RecordView {
            key: self.key@,
            value: match self.value {
                Some(v) => Some(v@),
                None => None,
            },
            seq: self.seq,
        }
    }
}

impl RecordView {
    /// The bytes of the value; a tombstone has none.
    pub open spec fn value_bytes(self) -> Seq<u8> {
        match self.value {
            Some(v) => v,
            None => Seq::empty(),
        }
    }

    /// How many bytes the record takes.
    pub open spec fn size(self) -> nat {
        17 + self.key.len() + self.value_bytes().len()
    }

    /// The bytes of the record. A length is stored in 32 bits.
    pub open spec fn encoded(self) -> Seq<u8> {
        bytes::le(self.seq as nat, 8) + seq![
            if self.value is Some {
                0u8
            } else {
                1u8
            },
        ] + bytes::le(self.key.len() % 0x1_0000_0000, 4) + self.key + bytes::le(
            self.value_bytes().len() % 0x1_0000_0000,
            4,
        ) + self.value_bytes()
    }

    /// Whether 32 bits hold the lengths of key and value.
    pub open spec fn fits(self) -> bool {
        self.key.len() < 0x1_0000_0000 && self.value_bytes().len() < 0x1_0000_0000
    }
}

/// The failure of a record whose bytes end too soon.
pub open spec fn truncated() -> ErrorView {
    ErrorView::Corrupt("record truncated"@)
}

/// The record at `pos` and where it ends, or why there is none.
pub open spec fn decoded(buf: Seq<u8>, pos: int) -> core::result::Result<
    (RecordView, int),
    ErrorView,
> {
    if pos + 13 > buf.len() {
        Err(truncated())
    } else {
        let value_at = pos + 13 + bytes::from_le(buf.subrange(pos + 9, pos + 13));
        if value_at + 4 > buf.len() {
            Err(truncated())
        } else {
            let end = value_at + 4 + bytes::from_le(buf.subrange(value_at, value_at + 4));
            let kind = buf[pos + 8];
            if end > buf.len() {
                Err(truncated())
            } else if kind > 1 {
                Err(ErrorView::Corrupt("bad record type "@ + text::digits(kind as nat)))
            } else {
                Ok(
                    (
                        RecordView {
                            key: buf.subrange(pos + 13, value_at),
                            value: if kind == 0 {
                                Some(buf.subrange(value_at + 4, end))
                            } else {
                                None
                            },
                            seq: bytes::from_le(buf.subrange(pos, pos + 8)) as u64,
                        },
                        end,
                    ),
                )
            }
        }
    }
}

/// The bytes of records, one behind the other.
pub open spec fn encoded_all(records: Seq<RecordView>) -> Seq<u8>
    decreases records.len(),
{
    if records.len() == 0 {
        Seq::empty()
    } else {
        encoded_all(records.drop_last()) + records.last().encoded()
    }
}

/// The `n` records from `pos` on and where the last one ends, or why there are
/// none.
pub open spec fn decoded_some(buf: Seq<u8>, pos: int, n: nat) -> core::result::Result<
    (Seq<RecordView>, int),
    ErrorView,
>
    decreases n,
{
    if n == 0 {
        Ok((Seq::empty(), pos))
    } else {
        match decoded(buf, pos) {
            Err(e) => Err(e),
            Ok((r, end)) => match decoded_some(buf, end, (n - 1) as nat) {
                Err(e) => Err(e),
                Ok((rest, last)) => Ok((seq![r] + rest, last)),
            },
        }
    }
}

/// The records that fill `buf` from `pos` to its end, or why they do not.
pub open spec fn decoded_all(buf: Seq<u8>, pos: int) -> core::result::Result<
    Seq<RecordView>,
    ErrorView,
>
    decreases buf.len() - pos,
{
    if pos >= buf.len() {
        Ok(Seq::empty())
    } else {
        match decoded(buf, pos) {
            Err(e) => Err(e),
            Ok((r, end)) => match decoded_all(buf, end) {
                Err(e) => Err(e),
                Ok(rest) => Ok(seq![r] + rest),
            },
        }
    }
}

/// A record takes as many bytes as its size says.
pub proof fn encoded_size(r: RecordView)
    ensures
        r.encoded().len() == r.size(),
{
    bytes::le_len(r.seq as nat, 8);
    bytes::le_len(r.key.len() % 0x1_0000_0000, 4);
    bytes::le_len(r.value_bytes().len() % 0x1_0000_0000, 4);
}

/// A record is read back from its bytes, whatever stands before and behind
/// them.
pub proof fn record_round_trip(before: Seq<u8>, r: RecordView, after: Seq<u8>)
    requires
        r.fits(),
    ensures
        decoded(before + r.encoded() + after, before.len() as int) == Ok::<
            (RecordView, int),
            ErrorView,
        >((r, (before.len() + r.size()) as int)),
{
    let buf = before + r.encoded() + after;
    let pos = before.len() as int;
    let klen = r.key.len();
    let vlen = r.value_bytes().len();
    encoded_size(r);
    bytes::spans();
    bytes::le_round_trip(r.seq as nat, 8);
    bytes::le_round_trip(klen, 4);
    bytes::le_round_trip(vlen, 4);
    let value_at = pos + 13 + klen;
    let end = value_at + 4 + vlen;
    assert(buf.subrange(pos, pos + 8) =~= bytes::le(r.seq as nat, 8));
    assert(buf.subrange(pos + 9, pos + 13) =~= bytes::le(klen, 4));
    assert(buf.subrange(pos + 13, value_at) =~= r.key);
    assert(buf.subrange(value_at, value_at + 4) =~= bytes::le(vlen, 4));
    assert(buf.subrange(value_at + 4, end) =~= r.value_bytes());
    assert(buf[pos + 8] == if r.value is Some {
        0u8
    } else {
        1u8
    });
}

/// The contents of records.
pub open spec fn views(records: Seq<Record>) -> Seq<RecordView> {
    records.map_values(|r: Record| r@)
}

/// Whether all lengths in `records` are stored whole.
pub open spec fn all_fit(records: Seq<RecordView>) -> bool {
    forall|i: int| 0 <= i < records.len() ==> (#[trigger] records[i]).fits()
}

/// The bytes of two runs of records are those of the first, then those of the
/// second.
pub proof fn encoded_all_concat(a: Seq<RecordView>, b: Seq<RecordView>)
    ensures
        encoded_all(a + b) == encoded_all(a) + encoded_all(b),
    decreases b.len(),
{
    if b.len() == 0 {
        assert(a + b =~= a);
        assert(encoded_all(a + b) =~= encoded_all(a) + encoded_all(b));
    } else {
        encoded_all_concat(a, b.drop_last());
        assert((a + b).drop_last() =~= a + b.drop_last());
        assert(encoded_all(a + b) =~= encoded_all(a) + encoded_all(b));
    }
}

/// The bytes of one record are those of a run of one.
pub proof fn encoded_all_single(r: RecordView)
    ensures
        encoded_all(seq![r]) == r.encoded(),
{
    reveal_with_fuel(encoded_all, 2);
    assert(seq![r].drop_last() =~= Seq::<RecordView>::empty());
    assert(encoded_all(seq![r]) =~= r.encoded());
}

proof fn encoded_all_first(records: Seq<RecordView>)
    requires
        records.len() > 0,
    ensures
        encoded_all(records) == records[0].encoded() + encoded_all(records.drop_first()),
{
    encoded_all_concat(seq![records[0]], records.drop_first());
    encoded_all_single(records[0]);
    assert(seq![records[0]] + records.drop_first() =~= records);
}

/// Records are read back from their bytes, whatever stands before and behind
/// them.
#[verifier::spinoff_prover]
#[verifier::rlimit(40)]
pub proof fn records_round_trip(before: Seq<u8>, records: Seq<RecordView>, after: Seq<u8>)
    requires
        all_fit(records),
    ensures
        decoded_some(
            before + encoded_all(records) + after,
            before.len() as int,
            records.len(),
        ) == Ok::<(Seq<RecordView>, int), ErrorView>(
            (records, (before.len() + encoded_all(records).len()) as int),
        ),
    decreases records.len(),
{
    let buf = before + encoded_all(records) + after;
    if records.len() == 0 {
        assert(records =~= Seq::<RecordView>::empty());
    } else {
        let r = records[0];
        let rest = records.drop_first();
        encoded_all_first(records);
        encoded_size(r);
        assert(all_fit(rest)) by {
            assert forall|i: int| 0 <= i < rest.len() implies (#[trigger] rest[i]).fits() by {
                assert(rest[i] == records[i + 1]);
            }
        }
        record_round_trip(before, r, encoded_all(rest) + after);
        assert(before + r.encoded() + (encoded_all(rest) + after) =~= buf);
        records_round_trip(before + r.encoded(), rest, after);
        assert(before + r.encoded() + encoded_all(rest) + after =~= buf);
        assert(seq![r] + rest =~= records);
    }
}

/// Records that fill a buffer behind `before` are read back from it.
#[verifier::spinoff_prover]
#[verifier::rlimit(40)]
pub proof fn block_round_trip(before: Seq<u8>, records: Seq<RecordView>)
    requires
        all_fit(records),
    ensures
        decoded_all(before + encoded_all(records), before.len() as int) == Ok::<
            Seq<RecordView>,
            ErrorView,
        >(records),
    decreases records.len(),
{
    let buf = before + encoded_all(records);
    if records.len() == 0 {
        assert(records =~= Seq::<RecordView>::empty());
    } else {
        let r = records[0];
        let rest = records.drop_first();
        encoded_all_first(records);
        encoded_size(r);
        record_round_trip(before, r, encoded_all(rest));
        assert(before + r.encoded() + encoded_all(rest) =~= buf);
        block_round_trip(before + r.encoded(), rest);
        assert(seq![r] + rest =~= records);
    }
}

/// Decode `n` records from `pos` on and move `pos` behind them.
pub fn decode_some(buf: &[u8], pos: &mut usize, n: usize) -> (r: Result<Vec<Record>>)
    ensures
        match decoded_some(buf@, *old(pos) as int, n as nat) {
            Ok((v, end)) => r is Ok && views(r->Ok_0@) == v && *final(pos) == end,
            Err(e) => r is Err && r->Err_0@ == e,
        },
{
    let mut out: Vec<Record> = Vec::new();
    let mut left: usize = n;
    let ghost start = *pos as int;
    while left > 0
        invariant
            left <= n,
            start == *old(pos) as int,
            match decoded_some(buf@, *pos as int, left as nat) {
                Ok((v, end)) => decoded_some(buf@, start, n as nat) == Ok::<
                    (Seq<RecordView>, int),
                    ErrorView,
                >((views(out@) + v, end)),
                Err(e) => decoded_some(buf@, start, n as nat) == Err::<
                    (Seq<RecordView>, int),
                    ErrorView,
                >(e),
            },
        decreases left,
    {
        let ghost before = views(out@);
        let r = Record::decode_at(buf, pos)?;
        out.push(r);
        left -= 1;
        proof {
            assert(views(out@) =~= before.push(r@));
            if let Ok((v, end)) = decoded_some(buf@, *pos as int, left as nat) {
                assert(before + (seq![r@] + v) =~= views(out@) + v);
            }
        }
    }
    assert(views(out@) + Seq::empty() =~= views(out@));
    Ok(out)
}

/// Decode the records that fill `buf`.
pub fn decode_all(buf: &[u8]) -> (r: Result<Vec<Record>>)
    ensures
        match decoded_all(buf@, 0) {
            Ok(v) => r is Ok && views(r->Ok_0@) == v,
            Err(e) => r is Err && r->Err_0@ == e,
        },
{
    let mut out: Vec<Record> = Vec::new();
    let mut pos: usize = 0;
    while pos < buf.len()
        invariant
            match decoded_all(buf@, pos as int) {
                Ok(v) => decoded_all(buf@, 0) == Ok::<Seq<RecordView>, ErrorView>(views(out@) + v),
                Err(e) => decoded_all(buf@, 0) == Err::<Seq<RecordView>, ErrorView>(e),
            },
        decreases buf.len() - pos,
    {
        let ghost before = views(out@);
        let r = Record::decode_at(buf, &mut pos)?;
        out.push(r);
        proof {
            assert(views(out@) =~= before.push(r@));
            if let Ok(v) = decoded_all(buf@, pos as int) {
                assert(before + (seq![r@] + v) =~= views(out@) + v);
            }
        }
    }
    assert(views(out@) + Seq::empty() =~= views(out@));
    Ok(out)
}

/// How many bytes the records take, unless that is more than `limit`.
pub fn encoded_total(records: &[Record], limit: u128) -> (r: Option<u128>)
    requires
        limit <= u64::MAX,
    ensures
        match r {
            Some(n) => n == encoded_all(views(records@)).len() && n <= limit,
            None => encoded_all(views(records@)).len() > limit,
        },
{
    let ghost all = views(records@);
    let n: usize = records.len();
    let mut acc: u128 = 0;
    let mut i: usize = 0;
    assert(all.take(0) =~= Seq::empty());
    while i < n
        invariant
            i <= n == records@.len(),
            all == views(records@),
            limit <= u64::MAX,
            acc == encoded_all(all.take(i as int)).len(),
            acc <= limit,
        decreases n - i,
    {
        let v: usize = match &records[i].value {
            Some(v) => v.len(),
            None => 0,
        };
        let k: usize = records[i].key.len();
        proof {
            assert(all.take(i + 1).drop_last() =~= all.take(i as int));
            assert(all.take(i + 1).last() == records@[i as int]@);
            encoded_size(records@[i as int]@);
            assert(all == all.take(i + 1) + all.skip(i + 1));
            encoded_all_concat(all.take(i + 1), all.skip(i + 1));
        }
        acc = acc + 17 + k as u128 + v as u128;
        if acc > limit {
            return None;
        }
        i += 1;
    }
    assert(all.take(n as int) =~= all);
    Some(acc)
}

/// No record takes more bytes than all of them, and none fewer than 17.
pub proof fn encoded_all_bounds(records: Seq<RecordView>)
    ensures
        17 * records.len() <= encoded_all(records).len(),
        forall|i: int|
            0 <= i < records.len() ==> (#[trigger] records[i]).size() <= encoded_all(records).len(),
    decreases records.len(),
{
    if records.len() > 0 {
        let front = records.drop_last();
        encoded_all_bounds(front);
        encoded_size(records.last());
        assert forall|i: int| 0 <= i < records.len() implies (#[trigger] records[i]).size()
            <= encoded_all(records).len() by {
            if i < front.len() {
                assert(records[i] == front[i]);
            }
        }
    }
}

impl Clone for Record {
    fn clone(&self) -> (r: Self)
        ensures
            r@ == self@,
    {
        let value = match &self.value {
            Some(v) => Some(bytes::copy(v.as_slice())),
            None => None,
        };
        Record { key: bytes::copy(self.key.as_slice()), value, seq: self.seq }
    }
}

impl Record {
    /// The mutation that gives `key` this value.
    pub fn put(key: Vec<u8>, value: Vec<u8>, seq: u64) -> (r: Record)
        ensures
            r@ == (RecordView { key: key@, value: Some(value@), seq }),
    {
        Record { key, value: Some(value), seq }
    }

    /// The mutation that deletes `key`.
    pub fn tombstone(key: Vec<u8>, seq: u64) -> (r: Record)
        ensures
            r@ == (RecordView { key: key@, value: None, seq }),
    {
        Record { key, value: None, seq }
    }

    /// How many bytes the record takes.
    pub fn encoded_len(&self) -> (r: usize)
        requires
            self@.size() <= usize::MAX,
        ensures
            r == self@.size(),
    {
        let v: usize = match &self.value {
            Some(v) => v.len(),
            None => 0,
        };
        8 + 1 + 4 + self.key.len() + 4 + v
    }

    /// Append the record's bytes to `buf`.
    pub fn encode_into(&self, buf: &mut Vec<u8>)
        ensures
            final(buf)@ == old(buf)@ + self@.encoded(),
    {
        let ghost before = buf@;
        bytes::push_u64(buf, self.seq);
        buf.push(if self.value.is_some() { 0 } else { 1 });
        bytes::push_u32(buf, bytes::low_u32(self.key.len()));
        bytes::append(buf, self.key.as_slice());
        match &self.value {
            Some(v) => {
                bytes::push_u32(buf, bytes::low_u32(v.len()));
                bytes::append(buf, v.as_slice());
            },
            None => {
                bytes::push_u32(buf, 0);
            },
        }
        assert(buf@ =~= before + self@.encoded());
    }

    /// The record's bytes.
    pub fn encode(&self) -> (r: Vec<u8>)
        requires
            self@.size() <= usize::MAX,
        ensures
            r@ == self@.encoded(),
    {
        let mut buf: Vec<u8> = Vec::with_capacity(self.encoded_len());
        self.encode_into(&mut buf);
        assert(buf@ =~= self@.encoded());
        buf
    }

    /// Decode the record at `pos` and move `pos` behind it. Where there is no
    /// record, `pos` stays.
    pub fn decode_at(buf: &[u8], pos: &mut usize) -> (r: Result<Record>)
        ensures
            match decoded(buf@, *old(pos) as int) {
                Ok((v, end)) => r is Ok && r->Ok_0@ == v && *final(pos) == end,
                Err(e) => r is Err && r->Err_0@ == e && *final(pos) == *old(pos),
            },
    {
        let p: usize = *pos;
        let total: usize = buf.len();
        if p > total || total - p < 13 {
            return Err(Error::corrupt("record truncated"));
        }
        let seq: u64 = bytes::get_u64(buf, p);
        let kind: u8 = buf[p + 8];
        let key_len: usize = bytes::get_u32(buf, p + 9) as usize;
        let rest: usize = total - p - 13;
        if rest < key_len || rest - key_len < 4 {
            return Err(Error::corrupt("record truncated"));
        }
        let value_at: usize = p + 13 + key_len;
        let val_len: usize = bytes::get_u32(buf, value_at) as usize;
        if total - value_at - 4 < val_len {
            return Err(Error::corrupt("record truncated"));
        }
        let end: usize = value_at + 4 + val_len;
        let value = if kind == 0 {
            Some(bytes::copy(bytes::part(buf, value_at + 4, end)))
        } else if kind == 1 {
            None
        } else {
            let n = text::decimal(kind as u64);
            return Err(Error::Corrupt(text::joined("bad record type ", n.as_str())));
        };
        let key = bytes::copy(bytes::part(buf, p + 13, value_at));
        *pos = end;
        Ok(Record { key, value, seq })
    }
}

/// What stands in the bytes of a record: its sequence number, a zero for a value or a
/// one for a delete, the length of the key, the key, the length of the value and the
/// value, numbers lowest byte first.
pub proof fn record_layout(r: RecordView)
    requires
        r.fits(),
    ensures
        ({
            let e = r.encoded();
            let k = r.key.len() as int;
            let value = match r.value {
                Some(v) => v,
                None => Seq::<u8>::empty(),
            };
            &&& e.len() == 17 + k + value.len()
            &&& bytes::from_le(e.subrange(0, 8)) == r.seq
            &&& e[8] == 0 <==> r.value is Some
            &&& e[8] == 1 <==> r.value is None
            &&& bytes::from_le(e.subrange(9, 13)) == k
            &&& e.subrange(13, 13 + k) == r.key
            &&& bytes::from_le(e.subrange(13 + k, 17 + k)) == value.len()
            &&& e.skip(17 + k) == value
        }),
{
    let e = r.encoded();
    let k = r.key.len() as int;
    encoded_size(r);
    bytes::spans();
    bytes::le_round_trip(r.seq as nat, 8);
    bytes::le_round_trip(r.key.len(), 4);
    bytes::le_round_trip(r.value_bytes().len(), 4);
    assert(e.subrange(0, 8) =~= bytes::le(r.seq as nat, 8));
    assert(e.subrange(9, 13) =~= bytes::le(r.key.len(), 4));
    assert(e.subrange(13, 13 + k) =~= r.key);
    assert(e.subrange(13 + k, 17 + k) =~= bytes::le(r.value_bytes().len(), 4));
    assert(e.skip(17 + k) =~= r.value_bytes());
}

/// A record with a value is read only from its own bytes, and a delete only where one is
/// marked.
pub proof fn only_its_bytes_are_read(buf: Seq<u8>, pos: int)
    requires
        0 <= pos,
    ensures
        decoded(buf, pos) matches Ok((r, end)) ==> {
            &&& pos < end <= buf.len()
            &&& r.value is Some <==> buf[pos + 8] == 0
            &&& r.value is None <==> buf[pos + 8] == 1
            &&& r.value is Some ==> buf.subrange(pos, end) == r.encoded()
        },
{
    if let Ok((r, end)) = decoded(buf, pos) {
        bytes::spans();
        bytes::from_le_round_trip(buf.subrange(pos, pos + 8));
        bytes::from_le_round_trip(buf.subrange(pos + 9, pos + 13));
        let value_at = pos + 13 + bytes::from_le(buf.subrange(pos + 9, pos + 13));
        bytes::from_le_round_trip(buf.subrange(value_at, value_at + 4));
        if r.value is Some {
            assert(buf.subrange(pos, end) =~= r.encoded());
        }
    }
}

} // verus!
