//! Frames: the unit in which the log files grow.
//!
//! A frame is `[checksum:4][payload_len:4][payload]`, numbers lowest byte
//! first. The checksum covers the payload. A reader takes frames from the front
//! and stops at the first one that is cut short or does not verify.

use vstd::prelude::*;

use crate::bytes;
use crate::hash;
use crate::header::Checksum;

verus! {

/// Bytes in front of a frame's payload.
pub const FRAME_HEADER: usize = 8;

/// The bytes of one frame.
pub open spec fn frame(c: Checksum, payload: Seq<u8>) -> Seq<u8> {
    bytes::le(c.of(payload) as nat, 4) + bytes::le(payload.len() % 0x1_0000_0000, 4) + payload
}

/// The bytes of frames, one behind the other.
pub open spec fn frames(c: Checksum, payloads: Seq<Seq<u8>>) -> Seq<u8>
    decreases payloads.len(),
{
    if payloads.len() == 0 {
        Seq::empty()
    } else {
        frames(c, payloads.drop_last()) + frame(c, payloads.last())
    }
}

/// Where the frame at `pos` ends, if there is one and it verifies.
pub open spec fn frame_end(log: Seq<u8>, pos: int, c: Checksum) -> Option<int> {
    if pos + FRAME_HEADER > log.len() {
        None
    } else {
        let end = pos + FRAME_HEADER + bytes::from_le(log.subrange(pos + 4, pos + 8));
        if end > log.len() {
            None
        } else if c.of(log.subrange(pos + FRAME_HEADER, end)) != bytes::from_le(
            log.subrange(pos, pos + 4),
        ) {
            None
        } else {
            Some(end)
        }
    }
}

/// The payloads of the frames from `pos` on, up to the first one that is cut
/// short or does not verify.
pub open spec fn payloads(log: Seq<u8>, pos: int, c: Checksum) -> Seq<Seq<u8>>
    decreases log.len() - pos,
{
    match frame_end(log, pos, c) {
        None => Seq::empty(),
        Some(end) => seq![log.subrange(pos + FRAME_HEADER, end)] + payloads(log, end, c),
    }
}

/// Where reading frames from `pos` on stops.
pub open spec fn stop(log: Seq<u8>, pos: int, c: Checksum) -> int
    decreases log.len() - pos,
{
    match frame_end(log, pos, c) {
        None => pos,
        Some(end) => stop(log, end, c),
    }
}

/// How many of the frames from `pos` on end within the first `n` bytes.
pub open spec fn whole_frames(log: Seq<u8>, pos: int, c: Checksum, n: int) -> nat
    decreases log.len() - pos,
{
    match frame_end(log, pos, c) {
        None => 0,
        Some(end) => if end <= n {
            1 + whole_frames(log, end, c, n)
        } else {
            0
        },
    }
}

/// A frame takes eight bytes and those of its payload.
pub proof fn frame_len(c: Checksum, payload: Seq<u8>)
    ensures
        frame(c, payload).len() == FRAME_HEADER + payload.len(),
{
    bytes::le_len(c.of(payload) as nat, 4);
    bytes::le_len(payload.len() % 0x1_0000_0000, 4);
}

/// A frame is read back where it was written.
pub proof fn frame_round_trip(before: Seq<u8>, c: Checksum, payload: Seq<u8>, after: Seq<u8>)
    requires
        payload.len() < 0x1_0000_0000,
    ensures
        frame_end(before + frame(c, payload) + after, before.len() as int, c) == Some(
            (before.len() + FRAME_HEADER + payload.len()) as int,
        ),
        (before + frame(c, payload) + after).subrange(
            (before.len() + FRAME_HEADER) as int,
            (before.len() + FRAME_HEADER + payload.len()) as int,
        ) == payload,
{
    let log = before + frame(c, payload) + after;
    let pos = before.len() as int;
    let end = pos + FRAME_HEADER + payload.len();
    frame_len(c, payload);
    bytes::spans();
    bytes::le_round_trip(c.of(payload) as nat, 4);
    bytes::le_round_trip(payload.len(), 4);
    assert(log.subrange(pos, pos + 4) =~= bytes::le(c.of(payload) as nat, 4));
    assert(log.subrange(pos + 4, pos + 8) =~= bytes::le(payload.len(), 4));
    assert(log.subrange(pos + FRAME_HEADER, end) =~= payload);
}

/// A frame that was appended to a log whose frames are all whole is read
/// behind them, and the frames of the log stay all whole.
pub proof fn append_frame(log: Seq<u8>, pos: int, c: Checksum, payload: Seq<u8>)
    requires
        0 <= pos <= log.len(),
        stop(log, pos, c) == log.len(),
        payload.len() < 0x1_0000_0000,
    ensures
        payloads(log + frame(c, payload), pos, c) == payloads(log, pos, c).push(payload),
        stop(log + frame(c, payload), pos, c) == (log + frame(c, payload)).len(),
    decreases log.len() - pos,
{
    let longer = log + frame(c, payload);
    frame_len(c, payload);
    match frame_end(log, pos, c) {
        None => {
            frame_round_trip(log, c, payload, Seq::empty());
            assert(log + frame(c, payload) + Seq::empty() =~= longer);
            let end = longer.len() as int;
            assert(frame_end(longer, pos, c) == Some(end));
            assert(frame_end(longer, end, c) is None);
            assert(payloads(longer, end, c) =~= Seq::<Seq<u8>>::empty());
            assert(stop(longer, end, c) == end);
            assert(stop(longer, pos, c) == stop(longer, end, c));
            assert(payloads(longer, pos, c) =~= payloads(log, pos, c).push(payload));
        },
        Some(end) => {
            assert(longer.subrange(pos, pos + 4) =~= log.subrange(pos, pos + 4));
            assert(longer.subrange(pos + 4, pos + 8) =~= log.subrange(pos + 4, pos + 8));
            assert(longer.subrange(pos + FRAME_HEADER, end) =~= log.subrange(
                pos + FRAME_HEADER,
                end,
            ));
            assert(frame_end(longer, pos, c) == Some(end));
            append_frame(log, end, c, payload);
            assert(stop(longer, pos, c) == stop(longer, end, c));
            assert(payloads(longer, pos, c) =~= payloads(log, pos, c).push(payload));
        },
    }
}

/// Frames that were written behind `front` are read back, all of them.
pub proof fn frames_round_trip(front: Seq<u8>, c: Checksum, all: Seq<Seq<u8>>)
    requires
        forall|i: int| 0 <= i < all.len() ==> (#[trigger] all[i]).len() < 0x1_0000_0000,
    ensures
        payloads(front + frames(c, all), front.len() as int, c) == all,
        stop(front + frames(c, all), front.len() as int, c) == (front + frames(c, all)).len(),
    decreases all.len(),
{
    let log = front + frames(c, all);
    let pos = front.len() as int;
    if all.len() == 0 {
        assert(frame_end(log, pos, c) is None);
        assert(payloads(log, pos, c) =~= all);
    } else {
        frames_round_trip(front, c, all.drop_last());
        append_frame(front + frames(c, all.drop_last()), pos, c, all.last());
        assert(front + frames(c, all.drop_last()) + frame(c, all.last()) =~= log);
        assert(all.drop_last().push(all.last()) =~= all);
    }
}

/// Frames behind frames are the frames of both.
pub proof fn frames_concat(c: Checksum, a: Seq<Seq<u8>>, b: Seq<Seq<u8>>)
    ensures
        frames(c, a + b) == frames(c, a) + frames(c, b),
    decreases b.len(),
{
    if b.len() == 0 {
        assert(a + b =~= a);
        assert(frames(c, a + b) =~= frames(c, a) + frames(c, b));
    } else {
        frames_concat(c, a, b.drop_last());
        assert((a + b).drop_last() =~= a + b.drop_last());
        assert(frames(c, a + b) =~= frames(c, a) + frames(c, b));
    }
}

/// A log that was cut off anywhere holds the frames that lie whole before the
/// cut, and nothing of the others.
pub proof fn cut_log(log: Seq<u8>, pos: int, c: Checksum, n: int)
    requires
        0 <= pos,
        0 <= n <= log.len(),
    ensures
        whole_frames(log, pos, c, n) <= payloads(log, pos, c).len(),
        payloads(log.take(n), pos, c) == payloads(log, pos, c).take(
            whole_frames(log, pos, c, n) as int,
        ),
    decreases log.len() - pos,
{
    let cut = log.take(n);
    match frame_end(log, pos, c) {
        Some(end) if end <= n => {
            assert(cut.subrange(pos, pos + 4) =~= log.subrange(pos, pos + 4));
            assert(cut.subrange(pos + 4, pos + 8) =~= log.subrange(pos + 4, pos + 8));
            assert(cut.subrange(pos + FRAME_HEADER, end) =~= log.subrange(
                pos + FRAME_HEADER,
                end,
            ));
            cut_log(log, end, c, n);
        },
        _ => {
            if pos + FRAME_HEADER <= n {
                assert(cut.subrange(pos, pos + 4) =~= log.subrange(pos, pos + 4));
                assert(cut.subrange(pos + 4, pos + 8) =~= log.subrange(pos + 4, pos + 8));
                let end = pos + FRAME_HEADER + bytes::from_le(log.subrange(pos + 4, pos + 8));
                if end <= n {
                    assert(cut.subrange(pos + FRAME_HEADER, end) =~= log.subrange(
                        pos + FRAME_HEADER,
                        end,
                    ));
                }
            }
            assert(frame_end(cut, pos, c) is None);
        },
    }
    assert(payloads(cut, pos, c) =~= payloads(log, pos, c).take(
        whole_frames(log, pos, c, n) as int,
    ));
}

/// All frames of a log lie within it.
pub proof fn all_frames_are_whole(log: Seq<u8>, pos: int, c: Checksum)
    requires
        0 <= pos,
    ensures
        whole_frames(log, pos, c, log.len() as int) == payloads(log, pos, c).len(),
    decreases log.len() - pos,
{
    if let Some(end) = frame_end(log, pos, c) {
        all_frames_are_whole(log, end, c);
    }
}

/// A log cut off where its whole frames end holds the same frames, and nothing
/// behind them.
pub proof fn cut_at_stop(log: Seq<u8>, pos: int, c: Checksum)
    requires
        0 <= pos <= log.len(),
    ensures
        pos <= stop(log, pos, c) <= log.len(),
        payloads(log.take(stop(log, pos, c)), pos, c) == payloads(log, pos, c),
        stop(log.take(stop(log, pos, c)), pos, c) == stop(log, pos, c),
    decreases log.len() - pos,
{
    let n = stop(log, pos, c);
    let cut = log.take(n);
    match frame_end(log, pos, c) {
        Some(end) => {
            cut_at_stop(log, end, c);
            assert(cut.subrange(pos, pos + 4) =~= log.subrange(pos, pos + 4));
            assert(cut.subrange(pos + 4, pos + 8) =~= log.subrange(pos + 4, pos + 8));
            assert(cut.subrange(pos + FRAME_HEADER, end) =~= log.subrange(
                pos + FRAME_HEADER,
                end,
            ));
            assert(frame_end(cut, pos, c) == Some(end));
        },
        None => {
            assert(frame_end(cut, pos, c) is None);
        },
    }
}

/// Where the whole frames of a log end is not moved by bytes behind it that are
/// not a frame.
pub proof fn stop_before_tail(log: Seq<u8>, pos: int, c: Checksum, tail: Seq<u8>)
    requires
        0 <= pos <= log.len(),
        stop(log, pos, c) == log.len(),
        frame_end(log + tail, log.len() as int, c) is None,
    ensures
        stop(log + tail, pos, c) == log.len(),
        payloads(log + tail, pos, c) == payloads(log, pos, c),
    decreases log.len() - pos,
{
    let longer = log + tail;
    match frame_end(log, pos, c) {
        None => {},
        Some(end) => {
            assert(longer.subrange(pos, pos + 4) =~= log.subrange(pos, pos + 4));
            assert(longer.subrange(pos + 4, pos + 8) =~= log.subrange(pos + 4, pos + 8));
            assert(longer.subrange(pos + FRAME_HEADER, end) =~= log.subrange(
                pos + FRAME_HEADER,
                end,
            ));
            assert(frame_end(longer, pos, c) == Some(end));
            stop_before_tail(log, end, c, tail);
        },
    }
}

/// What stands in a frame: first the CRC of all of the payload, of the kind that
/// the checksum is named after, then the length of the payload, both lowest byte
/// first, and then the payload.
pub proof fn frame_layout(c: Checksum, payload: Seq<u8>)
    ensures
        frame(c, payload).len() == 8 + payload.len(),
        c == Checksum::Castagnoli ==> bytes::from_le(frame(c, payload).subrange(0, 4))
            == hash::castagnoli(payload),
        c == Checksum::IsoHdlc ==> bytes::from_le(frame(c, payload).subrange(0, 4))
            == hash::iso_hdlc(payload),
        bytes::from_le(frame(c, payload).subrange(4, 8)) == payload.len() % 0x1_0000_0000,
        frame(c, payload).skip(8) == payload,
{
    let f = frame(c, payload);
    frame_len(c, payload);
    bytes::spans();
    bytes::le_round_trip(c.of(payload) as nat, 4);
    bytes::le_round_trip(payload.len() % 0x1_0000_0000, 4);
    assert(f.subrange(0, 4) =~= bytes::le(c.of(payload) as nat, 4));
    assert(f.subrange(4, 8) =~= bytes::le(payload.len() % 0x1_0000_0000, 4));
    assert(f.skip(8) =~= payload);
}

/// A frame is read at a place exactly if the log goes on for as many bytes as
/// the frame's length says, and the number in front is the CRC of all of them.
pub proof fn frame_is_read_if_its_crc_is_right(log: Seq<u8>, pos: int, c: Checksum)
    requires
        0 <= pos,
        pos + 8 <= log.len(),
    ensures
        ({
            let end = pos + 8 + bytes::from_le(log.subrange(pos + 4, pos + 8));
            let stored = bytes::from_le(log.subrange(pos, pos + 4));
            &&& frame_end(log, pos, c) is Some <==> {
                &&& end <= log.len()
                &&& stored == match c {
                    Checksum::Castagnoli => hash::castagnoli(log.subrange(pos + 8, end)),
                    Checksum::IsoHdlc => hash::iso_hdlc(log.subrange(pos + 8, end)),
                }
            }
            &&& frame_end(log, pos, c) is Some ==> frame_end(log, pos, c) == Some(end)
        }),
{
}

/// Two logs that store the same number and the same length in front of payloads
/// with different CRCs are not both read there.
pub proof fn damaged_payload_is_not_read(
    before: Seq<u8>,
    number: Seq<u8>,
    length: Seq<u8>,
    payload: Seq<u8>,
    damaged: Seq<u8>,
    after: Seq<u8>,
    c: Checksum,
)
    requires
        number.len() == 4,
        length.len() == 4,
        bytes::from_le(length) == payload.len(),
        damaged.len() == payload.len(),
        match c {
            Checksum::Castagnoli => hash::castagnoli(payload) != hash::castagnoli(damaged),
            Checksum::IsoHdlc => hash::iso_hdlc(payload) != hash::iso_hdlc(damaged),
        },
    ensures
        frame_end(before + number + length + payload + after, before.len() as int, c) is None
            || frame_end(before + number + length + damaged + after, before.len() as int, c)
            is None,
{
    let pos = before.len() as int;
    let a = before + number + length + payload + after;
    let b = before + number + length + damaged + after;
    frame_is_read_if_its_crc_is_right(a, pos, c);
    frame_is_read_if_its_crc_is_right(b, pos, c);
    assert(a.subrange(pos, pos + 4) =~= number);
    assert(b.subrange(pos, pos + 4) =~= number);
    assert(a.subrange(pos + 4, pos + 8) =~= length);
    assert(b.subrange(pos + 4, pos + 8) =~= length);
    assert(a.subrange(pos + 8, pos + 8 + payload.len()) =~= payload);
    assert(b.subrange(pos + 8, pos + 8 + payload.len()) =~= damaged);
}

/// Whether a payload stands at a place in a log, behind its CRC and its length.
pub open spec fn stands_at(log: Seq<u8>, at: int, c: Checksum, payload: Seq<u8>) -> bool {
    &&& 0 <= at
    &&& at + 8 + payload.len() <= log.len()
    &&& log.subrange(at + 8, at + 8 + payload.len()) == payload
    &&& bytes::from_le(log.subrange(at + 4, at + 8)) == payload.len()
    &&& bytes::from_le(log.subrange(at, at + 4)) == match c {
        Checksum::Castagnoli => hash::castagnoli(payload),
        Checksum::IsoHdlc => hash::iso_hdlc(payload),
    }
}

/// Every payload that is read of a log stands in it behind the CRC of all of
/// it: the first at the place where reading starts, and each other one right
/// behind the one before.
pub proof fn payloads_stand_in_the_log(log: Seq<u8>, pos: int, c: Checksum, i: int)
    requires
        0 <= pos,
        0 <= i < payloads(log, pos, c).len(),
    ensures
        exists|at: int| #[trigger]
            stands_at(log, at, c, payloads(log, pos, c)[i]) && pos <= at && (i == 0 ==> at
                == pos),
        i + 1 < payloads(log, pos, c).len() ==> exists|at: int| #[trigger]
            stands_at(log, at, c, payloads(log, pos, c)[i]) && pos <= at && stands_at(
                log,
                at + 8 + payloads(log, pos, c)[i].len(),
                c,
                payloads(log, pos, c)[i + 1],
            ),
    decreases log.len() - pos,
{
    let all = payloads(log, pos, c);
    frame_is_read_if_its_crc_is_right(log, pos, c);
    let end = frame_end(log, pos, c)->Some_0;
    let rest = payloads(log, end, c);
    assert(all =~= seq![log.subrange(pos + 8, end)] + rest);
    assert(stands_at(log, pos, c, all[0]));
    if i == 0 {
        if rest.len() > 0 {
            payloads_stand_in_the_log(log, end, c, 0);
            assert(stands_at(log, end, c, rest[0]));
            assert(rest[0] == all[1]);
        }
    } else {
        payloads_stand_in_the_log(log, end, c, i - 1);
        assert(rest[i - 1] == all[i]);
        let at = choose|at: int| #[trigger] stands_at(log, at, c, rest[i - 1]) && end <= at;
        assert(stands_at(log, at, c, all[i]));
        if i + 1 < all.len() {
            assert(rest[i] == all[i + 1]);
            let at = choose|at: int| #[trigger]
                stands_at(log, at, c, rest[i - 1]) && end <= at && stands_at(
                    log,
                    at + 8 + rest[i - 1].len(),
                    c,
                    rest[i],
                );
            assert(stands_at(log, at, c, all[i]));
        }
    }
}

/// Append one frame to `buf`.
pub fn push_frame(buf: &mut Vec<u8>, c: Checksum, payload: &[u8])
    ensures
        final(buf)@ == old(buf)@ + frame(c, payload@),
{
    let ghost before = buf@;
    bytes::push_u32(buf, c.hash(payload));
    bytes::push_u32(buf, bytes::low_u32(payload.len()));
    bytes::append(buf, payload);
    assert(buf@ =~= before + frame(c, payload@));
}

/// Where the frame at `pos` ends, if there is one and it verifies.
pub fn next_frame(log: &[u8], pos: usize, c: Checksum) -> (r: Option<usize>)
    requires
        pos <= log@.len(),
    ensures
        match r {
            Some(end) => frame_end(log@, pos as int, c) == Some(end as int) && pos + FRAME_HEADER
                <= end <= log@.len(),
            None => frame_end(log@, pos as int, c) is None,
        },
{
    let total: usize = log.len();
    if total - pos < FRAME_HEADER {
        return None;
    }
    let crc: u32 = bytes::get_u32(log, pos);
    let len: usize = bytes::get_u32(log, pos + 4) as usize;
    let start: usize = pos + FRAME_HEADER;
    if total - start < len {
        return None;
    }
    let end: usize = start + len;
    if c.hash(bytes::part(log, start, end)) != crc {
        return None;
    }
    Some(end)
}

} // verus!
