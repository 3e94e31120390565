//! Manifest: the record of which tables are live and where the counters stand.
//!
//! It is a log of [`VersionEdit`]s: a [header](crate::header) and then
//! [frames](crate::frame), one edit each, `[tag:1][body:8]`. On open the log is
//! replayed and then written anew as the next generation, so that it does not
//! grow for ever. The file `CURRENT` names the live generation and is replaced
//! by a rename.

use std::collections::BTreeSet;
use vstd::prelude::*;

use crate::bytes;
use crate::disk;
use crate::disk::{Change, Disk, Holder, Volume};
use crate::error::{Error, ErrorView, IoErrorKind, IoErrorView, Result};
use crate::frame;
use crate::fs;
use crate::fs::{BufAppend, File, Fs, OpenMode, SyncMode};
use crate::hash;
use crate::header;
use crate::header::{Checksum, Kind, HEADER_LEN, MANIFEST_MAGIC, MANIFEST_VERSION};
use crate::ids;
use crate::names;
use crate::text;

verus! {

broadcast use vstd::std_specs::btree::group_btree_axioms;

/// Bytes in the payload of a frame: a tag and a number.
pub const PAYLOAD_LEN: usize = 9;

/// One change to the set of live tables or to the counters.
#[derive(Debug, Clone, Copy, PartialEq, Eq, Structural)]
pub enum VersionEdit {
    AddTable { id: u64 },
    DeleteTable { id: u64 },
    SetNextSeq(u64),
    SetNextSstId(u64),
}

impl VersionEdit {
    /// The tag of this kind of edit.
    pub open spec fn tag(self) -> u8 {
        match self {
            VersionEdit::AddTable { id } => 0,
            VersionEdit::DeleteTable { id } => 1,
            VersionEdit::SetNextSeq(n) => 2,
            VersionEdit::SetNextSstId(n) => 3,
        }
    }

    /// The number in the edit.
    pub open spec fn body(self) -> u64 {
        match self {
            VersionEdit::AddTable { id } => id,
            VersionEdit::DeleteTable { id } => id,
            VersionEdit::SetNextSeq(n) => n,
            VersionEdit::SetNextSstId(n) => n,
        }
    }

    /// The bytes of the edit.
    pub open spec fn payload(self) -> Seq<u8> {
        seq![self.tag()] + bytes::le(self.body() as nat, 8)
    }

    /// The edit in a payload, or why there is none.
    pub open spec fn from_payload(payload: Seq<u8>) -> core::result::Result<
        VersionEdit,
        ErrorView,
    > {
        let body = bytes::from_le(payload.subrange(1, 9)) as u64;
        if payload.len() != PAYLOAD_LEN {
            Err(ErrorView::Corrupt("bad manifest payload length"@))
        } else if payload[0] == 0 {
            Ok(VersionEdit::AddTable { id: body })
        } else if payload[0] == 1 {
            Ok(VersionEdit::DeleteTable { id: body })
        } else if payload[0] == 2 {
            Ok(VersionEdit::SetNextSeq(body))
        } else if payload[0] == 3 {
            Ok(VersionEdit::SetNextSstId(body))
        } else {
            Err(ErrorView::Corrupt("bad manifest edit tag "@ + text::digits(payload[0] as nat)))
        }
    }

    /// The bytes of the edit.
    pub fn encode(&self) -> (r: Vec<u8>)
        ensures
            r@ == self.payload(),
    {
        let (tag, body): (u8, u64) = match *self {
            VersionEdit::AddTable { id } => (0, id),
            VersionEdit::DeleteTable { id } => (1, id),
            VersionEdit::SetNextSeq(n) => (2, n),
            VersionEdit::SetNextSstId(n) => (3, n),
        };
        let mut buf: Vec<u8> = Vec::with_capacity(PAYLOAD_LEN);
        buf.push(tag);
        bytes::push_u64(&mut buf, body);
        assert(buf@ =~= self.payload());
        buf
    }

    /// Decode the edit in a payload.
    pub fn decode(payload: &[u8]) -> (r: Result<VersionEdit>)
        ensures
            match VersionEdit::from_payload(payload@) {
                Ok(e) => r is Ok && r->Ok_0 == e,
                Err(e) => r is Err && r->Err_0@ == e,
            },
    {
        if payload.len() != PAYLOAD_LEN {
            return Err(Error::corrupt("bad manifest payload length"));
        }
        let body: u64 = bytes::get_u64(payload, 1);
        let tag: u8 = payload[0];
        if tag == 0 {
            Ok(VersionEdit::AddTable { id: body })
        } else if tag == 1 {
            Ok(VersionEdit::DeleteTable { id: body })
        } else if tag == 2 {
            Ok(VersionEdit::SetNextSeq(body))
        } else if tag == 3 {
            Ok(VersionEdit::SetNextSstId(body))
        } else {
            Err(
                Error::Corrupt(
                    text::joined("bad manifest edit tag ", text::decimal(tag as u64).as_str()),
                ),
            )
        }
    }
}

/// An edit is read back from its payload.
pub proof fn edit_round_trip(edit: VersionEdit)
    ensures
        VersionEdit::from_payload(edit.payload()) == Ok::<VersionEdit, ErrorView>(edit),
        edit.payload().len() == PAYLOAD_LEN,
{
    bytes::spans();
    bytes::le_round_trip(edit.body() as nat, 8);
    assert(edit.payload().subrange(1, 9) =~= bytes::le(edit.body() as nat, 8));
}

/// What the manifest says: which tables are live, and the counters.
#[derive(Debug)]
pub struct ManifestState {
    pub live_tables: BTreeSet<u64>,
    pub next_seq: u64,
    pub next_sst_id: u64,
}

/// The content of a [`ManifestState`].
#[verifier::ext_equal]
pub struct StateView {
    pub live_tables: Set<u64>,
    pub next_seq: u64,
    pub next_sst_id: u64,
}

impl View for ManifestState {
    type V = StateView;

    open spec fn view(&self) -> StateView {
        StateView {
            live_tables: self.live_tables@,
            next_seq: self.next_seq,
            next_sst_id: self.next_sst_id,
        }
    }
}

impl StateView {
    /// Nothing is live, and the counters are at zero.
    pub open spec fn empty() -> StateView {
        StateView { live_tables: Set::empty(), next_seq: 0, next_sst_id: 0 }
    }

    /// The state after one edit.
    pub open spec fn applied(self, edit: VersionEdit) -> StateView {
        match edit {
            VersionEdit::AddTable { id } => StateView {
                live_tables: self.live_tables.insert(id),
                ..self
            },
            VersionEdit::DeleteTable { id } => StateView {
                live_tables: self.live_tables.remove(id),
                ..self
            },
            VersionEdit::SetNextSeq(n) => StateView { next_seq: n, ..self },
            VersionEdit::SetNextSstId(n) => StateView { next_sst_id: n, ..self },
        }
    }

    /// The state after edits, in order.
    pub open spec fn applied_all(self, edits: Seq<VersionEdit>) -> StateView
        decreases edits.len(),
    {
        if edits.len() == 0 {
            self
        } else {
            self.applied_all(edits.drop_last()).applied(edits.last())
        }
    }

    /// The edits that bring an empty state to this one: the counters, and then
    /// the tables in ascending order.
    pub open spec fn snapshot(self) -> Seq<VersionEdit> {
        seq![
            VersionEdit::SetNextSeq(self.next_seq),
            VersionEdit::SetNextSstId(self.next_sst_id),
        ] + ids::in_order(self.live_tables).map_values(|id: u64| VersionEdit::AddTable { id })
    }
}

impl Default for ManifestState {
    fn default() -> (r: ManifestState)
        ensures
            r@ == StateView::empty(),
    {
        ManifestState { live_tables: BTreeSet::new(), next_seq: 0, next_sst_id: 0 }
    }
}

impl ManifestState {
    /// Change the state as the edit says.
    pub fn apply(&mut self, edit: VersionEdit)
        ensures
            final(self)@ == old(self)@.applied(edit),
    {
        match edit {
            VersionEdit::AddTable { id } => {
                self.live_tables.insert(id);
            },
            VersionEdit::DeleteTable { id } => {
                self.live_tables.remove(&id);
            },
            VersionEdit::SetNextSeq(n) => {
                self.next_seq = n;
            },
            VersionEdit::SetNextSstId(n) => {
                self.next_sst_id = n;
            },
        }
    }

    /// The edits that, replayed into an empty state, give this one.
    pub fn snapshot_edits(&self) -> (r: Vec<VersionEdit>)
        ensures
            r@ == self@.snapshot(),
            StateView::empty().applied_all(r@) == self@,
    {
        let live = ids::ascending(&self.live_tables);
        let n: usize = live.len();
        let mut edits: Vec<VersionEdit> = Vec::new();
        edits.push(VersionEdit::SetNextSeq(self.next_seq));
        edits.push(VersionEdit::SetNextSstId(self.next_sst_id));
        let ghost head = edits@;
        let ghost f = |id: u64| VersionEdit::AddTable { id };
        let mut i: usize = 0;
        assert(head + live@.take(0).map_values(f) =~= head);
        while i < n
            invariant
                i <= n == live@.len(),
                f == (|id: u64| VersionEdit::AddTable { id }),
                edits@ == head + live@.take(i as int).map_values(f),
            decreases n - i,
        {
            edits.push(VersionEdit::AddTable { id: live[i] });
            assert(edits@ =~= head + live@.take(i + 1).map_values(f));
            i += 1;
        }
        assert(live@.take(n as int) =~= live@);
        assert(edits@ =~= self@.snapshot());
        proof {
            snapshot_reproduces(self@);
        }
        edits
    }
}

/// Adding tables adds them to the live ones.
pub proof fn adding_tables(start: StateView, added: Seq<u64>)
    ensures
        start.applied_all(added.map_values(|id: u64| VersionEdit::AddTable { id })) == (StateView {
            live_tables: start.live_tables.union(added.to_set()),
            ..start
        }),
    decreases added.len(),
{
    let f = |id: u64| VersionEdit::AddTable { id };
    let edits = added.map_values(f);
    if added.len() == 0 {
        assert(start.live_tables.union(added.to_set()) =~= start.live_tables);
    } else {
        let fewer = added.drop_last();
        adding_tables(start, fewer);
        assert(edits.drop_last() =~= fewer.map_values(f));
        assert(added =~= fewer.push(added.last()));
        fewer.lemma_push_to_set_commute(added.last());
        assert(start.live_tables.union(added.to_set()) =~= start.live_tables.union(
            fewer.to_set(),
        ).insert(added.last()));
    }
}

/// Applying two series of edits is applying the one, and then the other.
pub proof fn applied_all_concat(start: StateView, a: Seq<VersionEdit>, b: Seq<VersionEdit>)
    ensures
        start.applied_all(a + b) == start.applied_all(a).applied_all(b),
    decreases b.len(),
{
    if b.len() == 0 {
        assert(a + b =~= a);
    } else {
        applied_all_concat(start, a, b.drop_last());
        assert((a + b).drop_last() =~= a + b.drop_last());
    }
}

/// The snapshot edits, replayed into an empty state, reproduce the state. (A
/// state that exists has finitely many tables.)
pub proof fn snapshot_reproduces(state: StateView)
    requires
        exists|s: Seq<u64>| ids::ascends(s) && #[trigger] s.to_set() == state.live_tables,
    ensures
        StateView::empty().applied_all(state.snapshot()) == state,
{
    let live = ids::in_order(state.live_tables);
    let f = |id: u64| VersionEdit::AddTable { id };
    let head = seq![
        VersionEdit::SetNextSeq(state.next_seq),
        VersionEdit::SetNextSstId(state.next_sst_id),
    ];
    applied_all_concat(StateView::empty(), head, live.map_values(f));
    let mid = StateView::empty().applied_all(head);
    assert(mid == (StateView { live_tables: Set::empty(), ..state })) by {
        reveal_with_fuel(StateView::applied_all, 3);
        assert(head.drop_last().drop_last() =~= Seq::empty());
    }
    adding_tables(mid, live);
    assert(mid.live_tables.union(live.to_set()) =~= state.live_tables);
}

impl Clone for ManifestState {
    fn clone(&self) -> (r: Self)
        ensures
            r@ == self@,
    {
        ManifestState {
            live_tables: self.live_tables.clone(),
            next_seq: self.next_seq,
            next_sst_id: self.next_sst_id,
        }
    }
}

// ------------------------------------------------------------------ replay
/// The edits in payloads, in order, or what is wrong with the first that does
/// not decode.
pub open spec fn edits_of(payloads: Seq<Seq<u8>>) -> core::result::Result<
    Seq<VersionEdit>,
    ErrorView,
>
    decreases payloads.len(),
{
    if payloads.len() == 0 {
        Ok(Seq::empty())
    } else {
        match edits_of(payloads.drop_last()) {
            Err(e) => Err(e),
            Ok(edits) => match VersionEdit::from_payload(payloads.last()) {
                Err(e) => Err(e),
                Ok(edit) => Ok(edits.push(edit)),
            },
        }
    }
}

/// What kind of manifest a file is.
pub open spec fn manifest_kind(log: Seq<u8>) -> core::result::Result<Kind, ErrorView> {
    header::classified(log, MANIFEST_MAGIC@, MANIFEST_VERSION, "the manifest"@)
}

/// The payloads of the frames in a manifest of this kind.
pub open spec fn manifest_payloads(log: Seq<u8>, kind: Kind) -> Seq<Seq<u8>> {
    frame::payloads(log, header::first_frame(kind) as int, header::manifest_checksum_of(kind))
}

/// Why a manifest with `n` bytes and no readable frame is refused.
pub open spec fn unreadable(path: Seq<char>, n: nat) -> Seq<char> {
    path + " holds "@ + text::digits(n)
        + " bytes and not one readable frame; refusing to treat it as empty, because doing so would reclaim every SSTable in the directory"@
}

/// The state that the manifest at `path` with these bytes describes, or why it
/// cannot be read.
///
/// A frame at the end that is cut short or does not verify is what a crash in
/// the middle of an append leaves. A file in which not even the first frame
/// verifies is something else: every manifest that the engine has written holds
/// at least the counters, and one that was read as empty would have every table
/// in the directory deleted.
pub open spec fn replayed(path: Seq<char>, log: Seq<u8>) -> core::result::Result<
    StateView,
    ErrorView,
> {
    match manifest_kind(log) {
        Err(e) => Err(e),
        Ok(Kind::Empty) => Ok(StateView::empty()),
        Ok(kind) => {
            let payloads = manifest_payloads(log, kind);
            let first = header::first_frame(kind);
            match edits_of(payloads) {
                Err(e) => Err(e),
                Ok(edits) => if edits.len() == 0 && log.len() > first {
                    Err(ErrorView::Corrupt(unreadable(path, (log.len() - first) as nat)))
                } else {
                    Ok(StateView::empty().applied_all(edits))
                },
            }
        },
    }
}

proof fn first_error(a: Seq<Seq<u8>>, b: Seq<Seq<u8>>)
    requires
        edits_of(a) is Err,
    ensures
        edits_of(a + b) == edits_of(a),
    decreases b.len(),
{
    if b.len() == 0 {
        assert(a + b =~= a);
    } else {
        first_error(a, b.drop_last());
        assert((a + b).drop_last() =~= a + b.drop_last());
    }
}

proof fn edit_errors_are_corrupt(payloads: Seq<Seq<u8>>)
    ensures
        edits_of(payloads) matches Err(e) ==> e is Corrupt,
    decreases payloads.len(),
{
    if payloads.len() > 0 {
        edit_errors_are_corrupt(payloads.drop_last());
    }
}

/// The state that a manifest describes, given its bytes.
pub fn replay_bytes(path: &str, log: &[u8]) -> (r: Result<ManifestState>)
    ensures
        match replayed(path@, log@) {
            Ok(v) => r is Ok && r->Ok_0@ == v,
            Err(e) => r is Err && r->Err_0@ == e,
        },
{
    let kind = header::classify(log, MANIFEST_MAGIC, MANIFEST_VERSION, "the manifest")?;
    let mut state = ManifestState::default();
    if kind == Kind::Empty {
        return Ok(state);
    }
    let checksum = header::manifest_checksum(kind);
    let first: usize = header::frames_start(kind);
    let mut pos: usize = first;
    let mut any = false;
    let ghost all = manifest_payloads(log@, kind);
    let ghost mut done: Seq<Seq<u8>> = Seq::empty();
    let ghost mut edits: Seq<VersionEdit> = Seq::empty();
    assert(done + all =~= all);
    loop
        invariant
            manifest_kind(log@) == Ok::<Kind, ErrorView>(kind),
            kind != Kind::Empty,
            checksum == header::manifest_checksum_of(kind),
            all == manifest_payloads(log@, kind),
            pos <= log@.len(),
            all == done + frame::payloads(log@, pos as int, checksum),
            edits_of(done) == Ok::<Seq<VersionEdit>, ErrorView>(edits),
            state@ == StateView::empty().applied_all(edits),
            any == (edits.len() > 0),
        ensures
            all == done,
        decreases log@.len() - pos,
    {
        let end: usize = match frame::next_frame(log, pos, checksum) {
            Some(end) => end,
            None => {
                assert(done + Seq::empty() =~= done);
                break;
            },
        };
        let payload = bytes::part(log, pos + frame::FRAME_HEADER, end);
        let ghost rest = frame::payloads(log@, end as int, checksum);
        let ghost next = done.push(payload@);
        proof {
            assert(done + (seq![payload@] + rest) =~= next + rest);
            assert(next.drop_last() =~= done);
            if VersionEdit::from_payload(payload@) is Err {
                first_error(next, rest);
            }
        }
        let edit = VersionEdit::decode(payload)?;
        state.apply(edit);
        any = true;
        proof {
            assert(edits.push(edit).drop_last() =~= edits);
            edits = edits.push(edit);
            done = next;
        }
        pos = end;
    }
    if !any && log.len() > first {
        let mut m = text::joined(path, " holds ");
        m.append(text::decimal((log.len() - first) as u64).as_str());
        m.append(
            " bytes and not one readable frame; refusing to treat it as empty, because doing so would reclaim every SSTable in the directory",
        );
        return Err(Error::Corrupt(m));
    }
    Ok(state)
}

// -------------------------------------------------------------------- laws
/// The payloads of edits.
pub open spec fn edit_payloads(edits: Seq<VersionEdit>) -> Seq<Seq<u8>> {
    edits.map_values(|e: VersionEdit| e.payload())
}

/// The manifest that this build writes when these edits are appended.
pub open spec fn log_of(edits: Seq<VersionEdit>) -> Seq<u8> {
    header::header_bytes(MANIFEST_MAGIC@, MANIFEST_VERSION) + frame::frames(
        Checksum::Castagnoli,
        edit_payloads(edits),
    )
}

proof fn edits_are_read(edits: Seq<VersionEdit>)
    ensures
        edits_of(edit_payloads(edits)) == Ok::<Seq<VersionEdit>, ErrorView>(edits),
    decreases edits.len(),
{
    let ps = edit_payloads(edits);
    if edits.len() == 0 {
        assert(edits =~= Seq::empty());
    } else {
        assert(ps.drop_last() =~= edit_payloads(edits.drop_last()));
        edits_are_read(edits.drop_last());
        edit_round_trip(edits.last());
        assert(edits.drop_last().push(edits.last()) =~= edits);
    }
}

/// How many edits lie whole within the first `n` bytes of a manifest.
pub open spec fn whole_edits(edits: Seq<VersionEdit>, n: int) -> nat {
    frame::whole_frames(log_of(edits), HEADER_LEN as int, Checksum::Castagnoli, n)
}

/// Wherever a crash cuts a manifest off behind its header, replay applies the
/// edits that lie whole before the cut, and no others; and if bytes are left
/// but not one edit is whole, it refuses. Uncut, it applies them all.
pub proof fn manifest_replays(path: Seq<char>, edits: Seq<VersionEdit>, n: int)
    requires
        HEADER_LEN <= n <= log_of(edits).len(),
    ensures
        whole_edits(edits, n) <= edits.len(),
        whole_edits(edits, n) > 0 || n == HEADER_LEN ==> replayed(path, log_of(edits).take(n))
            == Ok::<StateView, ErrorView>(
            StateView::empty().applied_all(edits.take(whole_edits(edits, n) as int)),
        ),
        whole_edits(edits, n) == 0 && n > HEADER_LEN ==> replayed(path, log_of(edits).take(n))
            == Err::<StateView, ErrorView>(
            ErrorView::Corrupt(unreadable(path, (n - HEADER_LEN) as nat)),
        ),
        n == log_of(edits).len() ==> whole_edits(edits, n) == edits.len(),
{
    let c = Checksum::Castagnoli;
    let front = header::header_bytes(MANIFEST_MAGIC@, MANIFEST_VERSION);
    let ps = edit_payloads(edits);
    let log = log_of(edits);
    let cut = log.take(n);
    let k = whole_edits(edits, n);
    header::header_len(MANIFEST_MAGIC@, MANIFEST_VERSION);
    assert forall|i: int| 0 <= i < ps.len() implies (#[trigger] ps[i]).len() < 0x1_0000_0000 by {
        edit_round_trip(edits[i]);
    }
    frame::frames_round_trip(front, c, ps);
    frame::cut_log(log, HEADER_LEN as int, c, n);
    frame::all_frames_are_whole(log, HEADER_LEN as int, c);
    assert(edit_payloads(edits.take(k as int)) =~= ps.take(k as int));
    edits_are_read(edits.take(k as int));
    let rest = cut.skip(HEADER_LEN as int);
    header::header_round_trip(
        MANIFEST_MAGIC@,
        MANIFEST_VERSION,
        rest,
        MANIFEST_VERSION,
        "the manifest"@,
    );
    assert(front + rest =~= cut);
}

/// Appending edits to a manifest that this build wrote makes the manifest that
/// it writes for all of them.
pub proof fn manifest_grows(before: Seq<VersionEdit>, more: Seq<VersionEdit>)
    ensures
        log_of(before) + frame::frames(Checksum::Castagnoli, edit_payloads(more)) == log_of(
            before + more,
        ),
{
    assert(edit_payloads(before + more) =~= edit_payloads(before) + edit_payloads(more));
    frame::frames_concat(Checksum::Castagnoli, edit_payloads(before), edit_payloads(more));
    assert(log_of(before) + frame::frames(Checksum::Castagnoli, edit_payloads(more)) =~= log_of(
        before + more,
    ));
}

/// What is appended to a manifest that this build wrote is replayed: the edits
/// that were there, and then the new ones.
pub proof fn append_then_replay(
    path: Seq<char>,
    before: Seq<VersionEdit>,
    more: Seq<VersionEdit>,
)
    ensures
        replayed(path, log_of(before + more)) == Ok::<StateView, ErrorView>(
            StateView::empty().applied_all(before).applied_all(more),
        ),
{
    let all = before + more;
    let log = log_of(all);
    header::header_len(MANIFEST_MAGIC@, MANIFEST_VERSION);
    manifest_replays(path, all, log.len() as int);
    assert(log.take(log.len() as int) =~= log);
    assert(all.take(all.len() as int) =~= all);
    if all.len() == 0 {
        assert(edit_payloads(all) =~= Seq::empty());
        assert(log.len() == HEADER_LEN);
    }
    applied_all_concat(StateView::empty(), before, more);
}

// ---------------------------------------------------------------- the file
/// A manifest that is open for appending.
pub struct Manifest<F: Fs> {
    dir: String,
    generation: u64,
    file: BufAppend<F::File>,
    /// The checksum of this generation's frames.
    checksum: Checksum,
}

impl<F: Fs> Manifest<F> {
    /// The directory of the database.
    pub closed spec fn dir_text(&self) -> Seq<char> {
        self.dir@
    }

    /// Which generation this is.
    pub closed spec fn live_generation(&self) -> u64 {
        self.generation
    }

    /// The bytes in the file.
    pub closed spec fn contents(&self) -> Seq<u8> {
        self.file.file().contents()
    }

    /// Bytes that have not reached the file. There are none unless a write
    /// failed.
    pub closed spec fn buffered(&self) -> Seq<u8> {
        self.file.buffered()
    }

    /// The checksum of this generation's frames.
    pub closed spec fn frame_checksum(&self) -> Checksum {
        self.checksum
    }

    /// The syncs that were asked for since the file was opened, in order: each with
    /// what the file held then.
    pub closed spec fn syncs(&self) -> Seq<(SyncMode, Seq<u8>)> {
        self.file.file().syncs()
    }

    /// Where the file was opened.
    pub closed spec fn place(&self) -> Seq<char> {
        self.file.file().place()
    }

    /// Whether the file was opened where the generation is, and made durable as
    /// it is.
    pub open spec fn is_synced(&self) -> bool {
        &&& self.in_place()
        &&& F::File::synced(self.place(), self.contents())
    }

    /// Whether the file is where its generation belongs.
    pub open spec fn in_place(&self) -> bool {
        self.place() == names::path_in(
            self.dir_text(),
            names::manifest_name(self.live_generation()),
        )
    }

    /// Whether the file is the one that this build writes for these edits.
    pub open spec fn holds(&self, edits: Seq<VersionEdit>) -> bool {
        &&& self.contents() == log_of(edits)
        &&& self.buffered() == Seq::<u8>::empty()
        &&& self.frame_checksum() == Checksum::Castagnoli
    }

    /// Whether the database in `dir` has a manifest.
    pub fn is_present<V: Volume<F>>(fs: V, dir: &str) -> (r: bool)
        ensures
            disk::ended::<F>(Seq::empty()),
            exists|answer: core::result::Result<u64, IoErrorView>| #[trigger]
                F::sized(names::path_in(dir@, names::CURRENT_FILENAME@), answer) && r == (
                answer is Ok),
    {
        let disk = fs.mount();
        let r = Self::is_present_on(&disk, dir);
        disk.finish();
        r
    }

    /// Whether the database in `dir` has a manifest.
    pub(crate) fn is_present_on<H: Holder<F = F>>(disk: &Disk<H>, dir: &str) -> (r: bool)
        ensures
            exists|answer: core::result::Result<u64, IoErrorView>| #[trigger]
                F::sized(names::path_in(dir@, names::CURRENT_FILENAME@), answer) && r == (
                answer is Ok),
    {
        disk.is_present(names::join(dir, names::CURRENT_FILENAME).as_str())
    }

    /// Open the manifest in `dir`, replay it, and write it anew as the next
    /// generation.
    pub fn open<V: Volume<F>>(fs: V, dir: &str) -> (r: Result<(Manifest<F>, ManifestState)>)
        ensures
            r matches Ok((m, _)) ==> ({
                let generation = (m.live_generation() - 1) as u64;
                ||| disk::ended::<F>(opening_changes(dir@, generation, true))
                ||| disk::ended::<F>(opening_changes(dir@, generation, false))
            }),
            r is Err ==> exists|done: Seq<Change>| #[trigger]
                disk::ended::<F>(done) && disk::confined(done, manifest_files(dir@)),
            r matches Ok((m, state)) ==> {
                &&& m.holds(state@.snapshot())
                &&& m.is_synced()
                &&& is_current::<F>(dir@, m.live_generation())
                &&& StateView::empty().applied_all(state@.snapshot()) == state@
                &&& m.dir_text() == dir@
                &&& m.live_generation() > 0
                &&& found::<F>(dir@, (m.live_generation() - 1) as u64, state@)
                &&& discarded::<F>(dir@, (m.live_generation() - 1) as u64)
            },
            r matches Err(e) ==> unfound::<F>(dir@, e@),
            r is Err ==> r->Err_0 is Io || r->Err_0 is Corrupt || r->Err_0 is BadFormat,
    {
        let mut disk = fs.mount();
        let r = Self::open_on(&mut disk, dir);
        let ghost done = disk.changes();
        disk.finish();
        proof {
            assert(disk::ended::<F>(done));
            assert(done.skip(0) =~= done);
            if r is Ok {
                let generation = (r->Ok_0.0.live_generation() - 1) as u64;
                let none = Seq::<Change>::empty();
                let ok = done == none + opening_changes(dir@, generation, true);
                assert(done =~= opening_changes(dir@, generation, ok));
            }
        }
        r
    }

    /// Open the manifest in `dir`, as [`Manifest::open`] does.
    pub(crate) fn open_on<H: Holder<F = F>>(disk: &mut Disk<H>, dir: &str) -> (r: Result<
        (Manifest<F>, ManifestState),
    >)
        ensures
            r matches Ok((m, _)) ==> ({
                let generation = (m.live_generation() - 1) as u64;
                let before = old(disk).changes();
                let now = final(disk).changes();
                ||| now == before + opening_changes(dir@, generation, true)
                ||| now == before + opening_changes(dir@, generation, false)
            }),
            disk::went_on(old(disk).changes(), final(disk).changes(), manifest_files(dir@)),
            disk::went_softly(old(disk).changes(), final(disk).changes()),
            r matches Ok((m, state)) ==> {
                &&& m.holds(state@.snapshot())
                &&& m.is_synced()
                &&& is_current::<F>(dir@, m.live_generation())
                &&& StateView::empty().applied_all(state@.snapshot()) == state@
                &&& m.dir_text() == dir@
                &&& m.live_generation() > 0
                &&& found::<F>(dir@, (m.live_generation() - 1) as u64, state@)
                &&& discarded::<F>(dir@, (m.live_generation() - 1) as u64)
            },
            r matches Err(e) ==> unfound::<F>(dir@, e@),
            r is Err ==> r->Err_0 is Io || r->Err_0 is Corrupt || r->Err_0 is BadFormat,
    {
        let ghost start = disk.changes();
        proof {
            disk::went_nowhere(start, manifest_files(dir@));
        }
        let generation: u64 = read_current(disk, dir)?;
        let path = names::manifest_path(dir, generation);
        let state = replay_on(disk, path.as_str())?;
        proof {
            scratch_paths(dir@, 0);
            disk::went_softly_once(
                start,
                start,
                Change::Opened {
                    path: names::path_in(dir@, names::manifest_name(0)),
                    mode: OpenMode::Truncate,
                },
            );
            disk::went_softly_once(
                start,
                start,
                Change::Opened { path: path@, mode: OpenMode::Append },
            );
            disk::went_on_once(
                start,
                start,
                Change::Opened { path: path@, mode: OpenMode::Append },
                manifest_files(dir@),
            );
        }
        let file = match disk.open(path.as_str(), OpenMode::Append) {
            Ok(f) => f,
            Err(e) => return Err(Error::Io(e)),
        };
        let kind = classify_manifest(disk, path.as_str())?;
        let mut manifest: Manifest<F> = Manifest {
            dir: text::copy_text(dir),
            generation,
            file: BufAppend::new(file),
            checksum: header::manifest_checksum(kind),
        };
        let ghost mid = disk.changes();
        let rolled = manifest.rollover_on(disk, &state);
        proof {
            disk::went_softly_further(start, mid, disk.changes());
            disk::went_on_further(
                start,
                mid,
                disk.changes(),
                manifest_files(dir@),
                manifest_files(dir@),
            );
            if rolled is Ok {
                let ok = disk.changes() == mid + rolling_changes(dir@, generation, true);
                assert(disk.changes() =~= start + opening_changes(dir@, generation, ok));
            }
        }
        rolled?;
        Ok((manifest, state))
    }

    /// Create an empty manifest in `dir`, generation 0, and make it the live
    /// one.
    pub fn create<V: Volume<F>>(fs: V, dir: &str) -> (r: Result<Manifest<F>>)
        ensures
            r is Ok ==> disk::ended::<F>(creation_changes(dir@, 0)),
            r is Err ==> exists|done: Seq<Change>| #[trigger]
                disk::ended::<F>(done) && disk::confined(done, manifest_files(dir@)),
            r matches Ok(m) ==> {
                &&& m.holds(Seq::empty())
                &&& m.is_synced()
                &&& m.syncs() == seq![(SyncMode::Durable, m.contents())]
                &&& is_current::<F>(dir@, 0)
                &&& m.dir_text() == dir@
                &&& m.live_generation() == 0
            },
            r matches Err(e) ==> fs::handed_on::<F::File>(e@),
    {
        let mut disk = fs.mount();
        let r = Self::create_on(&mut disk, dir);
        let ghost done = disk.changes();
        disk.finish();
        proof {
            assert(disk::ended::<F>(done));
            assert(done.skip(0) =~= done);
            if r is Ok {
                assert(done =~= creation_changes(dir@, 0));
            }
        }
        r
    }

    /// Create an empty manifest in `dir`, as [`Manifest::create`] does.
    pub(crate) fn create_on<H: Holder<F = F>>(disk: &mut Disk<H>, dir: &str) -> (r: Result<
        Manifest<F>,
    >)
        ensures
            r is Ok ==> final(disk).changes() == old(disk).changes() + creation_changes(dir@, 0),
            disk::went_on(old(disk).changes(), final(disk).changes(), manifest_files(dir@)),
            disk::went_softly(old(disk).changes(), final(disk).changes()),
            r matches Ok(m) ==> {
                &&& m.holds(Seq::empty())
                &&& m.is_synced()
                &&& m.syncs() == seq![(SyncMode::Durable, m.contents())]
                &&& is_current::<F>(dir@, 0)
                &&& m.dir_text() == dir@
                &&& m.live_generation() == 0
            },
            r matches Err(e) ==> fs::handed_on::<F::File>(e@),
    {
        let ghost start = disk.changes();
        proof {
            disk::went_nowhere(start, manifest_files(dir@));
            disk::went_on_once(
                start,
                start,
                Change::Opened {
                    path: names::path_in(dir@, names::manifest_name(0)),
                    mode: OpenMode::Truncate,
                },
                manifest_files(dir@),
            );
        }
        let mut manifest = Self::fresh(disk, dir, 0)?;
        match manifest.file.sync() {
            Ok(()) => {},
            Err(e) => return Err(Error::Io(e)),
        }
        let ghost mid = disk.changes();
        let named = write_current(disk, dir, 0);
        proof {
            disk::went_softly_further(start, mid, disk.changes());
            disk::went_on_further(
                start,
                mid,
                disk.changes(),
                manifest_files(dir@),
                current_files(dir@),
            );
        }
        named?;
        proof {
            assert(disk.changes() =~= start + creation_changes(dir@, 0));
            let none = Seq::<VersionEdit>::empty();
            assert(edit_payloads(none) =~= Seq::empty());
            assert(manifest.contents() =~= log_of(none));
        }
        Ok(manifest)
    }

    /// An empty file for a generation, with a header that is still buffered.
    fn fresh<H: Holder<F = F>>(disk: &mut Disk<H>, dir: &str, generation: u64) -> (r: Result<
        Manifest<F>,
    >)
        ensures
            final(disk).changes() == old(disk).changes().push(
                Change::Opened {
                    path: names::path_in(dir@, names::manifest_name(generation)),
                    mode: OpenMode::Truncate,
                },
            ),
            r matches Ok(m) ==> {
                &&& m.contents() + m.buffered() == header::header_bytes(
                    MANIFEST_MAGIC@,
                    MANIFEST_VERSION,
                )
                &&& m.frame_checksum() == Checksum::Castagnoli
                &&& m.dir_text() == dir@
                &&& m.live_generation() == generation
                &&& m.place() == names::path_in(dir@, names::manifest_name(generation))
                &&& m.syncs().len() == 0
            },
            r matches Err(e) ==> fs::handed_on::<F::File>(e@),
    {
        let path = names::manifest_path(dir, generation);
        let file = match disk.open(path.as_str(), OpenMode::Truncate) {
            Ok(f) => f,
            Err(e) => return Err(Error::Io(e)),
        };
        let mut manifest: Manifest<F> = Manifest {
            dir: text::copy_text(dir),
            generation,
            file: BufAppend::new(file),
            checksum: header::manifest_checksum(Kind::Versioned(MANIFEST_VERSION)),
        };
        let front = header::encode(MANIFEST_MAGIC, MANIFEST_VERSION);
        match manifest.file.write(front.as_slice()) {
            Ok(()) => {},
            Err(e) => return Err(Error::Io(e)),
        }
        assert(manifest.contents() + manifest.buffered() =~= header::header_bytes(
            MANIFEST_MAGIC@,
            MANIFEST_VERSION,
        ));
        Ok(manifest)
    }

    /// Put the manifest down.
    pub(crate) fn close_on<H: Holder<F = F>>(self, disk: &mut Disk<H>)
        ensures
            final(disk).changes() == old(disk).changes().push(
                Change::Closed { path: self.place(), bytes: self.contents() },
            ),
    {
        disk.close(self.file.into_file())
    }

    /// Append edits, and make them durable as a unit, with one sync.
    pub fn append_batch(&mut self, edits: &[VersionEdit]) -> (r: Result<()>)
        ensures
            r is Ok ==> final(self).contents() == old(self).contents() + old(self).buffered()
                + frame::frames(old(self).frame_checksum(), edit_payloads(edits@))
                && final(self).buffered() == Seq::<u8>::empty() && F::File::synced(
                old(self).place(),
                final(self).contents(),
            ) && final(self).syncs() == old(self).syncs().push(
                (SyncMode::Durable, final(self).contents()),
            ),
            r is Err ==> final(self).syncs() == old(self).syncs() || final(self).syncs() == old(
                self,
            ).syncs().push((SyncMode::Durable, final(self).contents())),
            r matches Err(e) ==> fs::handed_on::<F::File>(e@),
            old(self).contents().is_prefix_of(final(self).contents()),
            final(self).place() == old(self).place(),
            final(self).frame_checksum() == old(self).frame_checksum(),
            final(self).dir_text() == old(self).dir_text(),
            final(self).live_generation() == old(self).live_generation(),
    {
        let n: usize = edits.len();
        let ghost start = self.file.written();
        let ghost ps = edit_payloads(edits@);
        let ghost c = self.checksum;
        let mut i: usize = 0;
        proof {
            assert(ps.take(0) =~= Seq::empty());
            assert(start + frame::frames(c, ps.take(0)) =~= start);
        }
        while i < n
            invariant
                i <= n == edits@.len(),
                ps == edit_payloads(edits@),
                c == self.checksum,
                self.checksum == old(self).checksum,
                self.dir == old(self).dir,
                self.generation == old(self).generation,
                self.file.file().place() == old(self).place(),
                self.file.file().syncs() == old(self).syncs(),
                old(self).contents().is_prefix_of(self.file.file().contents()),
                self.file.written() == start + frame::frames(c, ps.take(i as int)),
            decreases n - i,
        {
            let payload = edits[i].encode();
            let mut out: Vec<u8> = Vec::new();
            frame::push_frame(&mut out, self.checksum, payload.as_slice());
            match self.file.write(out.as_slice()) {
                Ok(()) => {},
                Err(e) => return Err(Error::Io(e)),
            }
            proof {
                assert(ps.take(i + 1).drop_last() =~= ps.take(i as int));
                assert(ps.take(i + 1).last() == payload@);
                assert(self.file.written() =~= start + frame::frames(c, ps.take(i + 1)));
            }
            i += 1;
        }
        assert(ps.take(n as int) =~= ps);
        match self.file.sync() {
            Ok(()) => Ok(()),
            Err(e) => Err(Error::Io(e)),
        }
    }

    /// Write `state` as the next generation, make that the live one, and delete
    /// the one before. There is no generation behind the last number.
    pub fn rollover<V: Volume<F>>(&mut self, fs: V, state: &ManifestState) -> (r: Result<()>)
        ensures
            r is Ok ==> ({
                let dir = old(self).dir_text();
                let generation = old(self).live_generation();
                ||| disk::ended::<F>(rolling_changes(dir, generation, true))
                ||| disk::ended::<F>(rolling_changes(dir, generation, false))
            }),
            r is Err ==> exists|done: Seq<Change>| #[trigger]
                disk::ended::<F>(done) && disk::confined(
                    done,
                    manifest_files(old(self).dir_text()),
                ),
            old(self).live_generation() == u64::MAX ==> r is Err && r->Err_0@
                == no_generation(),
            r is Err ==> *final(self) == *old(self) && (fs::handed_on::<F::File>(r->Err_0@) || old(
                self,
            ).live_generation() == u64::MAX),
            r is Ok ==> {
                &&& final(self).holds(state@.snapshot())
                &&& final(self).is_synced()
                &&& final(self).syncs() == seq![(SyncMode::Durable, final(self).contents())]
                &&& is_current::<F>(final(self).dir_text(), final(self).live_generation())
                &&& StateView::empty().applied_all(state@.snapshot()) == state@
                &&& final(self).live_generation() == old(self).live_generation() + 1
                &&& discarded::<F>(final(self).dir_text(), old(self).live_generation())
                &&& final(self).dir_text() == old(self).dir_text()
            },
    {
        let mut disk = fs.mount();
        let r = self.rollover_on(&mut disk, state);
        let ghost done = disk.changes();
        disk.finish();
        proof {
            assert(disk::ended::<F>(done));
            assert(done.skip(0) =~= done);
            if r is Ok {
                let dir = old(self).dir_text();
                let generation = old(self).live_generation();
                let none = Seq::<Change>::empty();
                let ok = done == none + rolling_changes(dir, generation, true);
                assert(done =~= rolling_changes(dir, generation, ok));
            }
        }
        r
    }

    /// Write `state` as the next generation, as [`Manifest::rollover`] does.
    pub(crate) fn rollover_on<H: Holder<F = F>>(
        &mut self,
        disk: &mut Disk<H>,
        state: &ManifestState,
    ) -> (r: Result<()>)
        ensures
            r is Ok ==> ({
                let dir = old(self).dir_text();
                let generation = old(self).live_generation();
                let before = old(disk).changes();
                let now = final(disk).changes();
                ||| now == before + rolling_changes(dir, generation, true)
                ||| now == before + rolling_changes(dir, generation, false)
            }),
            disk::went_on(
                old(disk).changes(),
                final(disk).changes(),
                manifest_files(old(self).dir_text()),
            ),
            disk::went_softly(old(disk).changes(), final(disk).changes()),
            old(self).live_generation() == u64::MAX ==> r is Err && r->Err_0@
                == no_generation(),
            r is Err ==> *final(self) == *old(self) && (fs::handed_on::<F::File>(r->Err_0@) || old(
                self,
            ).live_generation() == u64::MAX),
            r is Ok ==> {
                &&& final(self).holds(state@.snapshot())
                &&& final(self).is_synced()
                &&& final(self).syncs() == seq![(SyncMode::Durable, final(self).contents())]
                &&& is_current::<F>(final(self).dir_text(), final(self).live_generation())
                &&& StateView::empty().applied_all(state@.snapshot()) == state@
                &&& final(self).live_generation() == old(self).live_generation() + 1
                &&& discarded::<F>(final(self).dir_text(), old(self).live_generation())
                &&& final(self).dir_text() == old(self).dir_text()
            },
    {
        let ghost start = disk.changes();
        let ghost files = manifest_files(self.dir_text());
        proof {
            disk::went_nowhere(start, files);
        }
        let old_gen: u64 = self.generation;
        if old_gen == u64::MAX {
            return Err(Error::corrupt("manifest generations are exhausted"));
        }
        let new_gen: u64 = old_gen + 1;
        proof {
            scratch_paths(self.dir_text(), new_gen);
            scratch_paths(self.dir_text(), old_gen);
            disk::went_softly_once(
                start,
                start,
                Change::Opened {
                    path: names::path_in(self.dir_text(), names::manifest_name(new_gen)),
                    mode: OpenMode::Truncate,
                },
            );
            disk::went_on_once(
                start,
                start,
                Change::Opened {
                    path: names::path_in(self.dir_text(), names::manifest_name(new_gen)),
                    mode: OpenMode::Truncate,
                },
                files,
            );
        }
        let mut writer = Self::fresh(disk, self.dir.as_str(), new_gen)?;
        let edits = state.snapshot_edits();
        writer.append_batch(edits.as_slice())?;

        // From here on `CURRENT` names the new generation, which is durable.
        let ghost mid = disk.changes();
        let named = write_current(disk, self.dir.as_str(), new_gen);
        proof {
            disk::went_softly_further(start, mid, disk.changes());
            disk::went_on_further(
                start,
                mid,
                disk.changes(),
                files,
                current_files(self.dir_text()),
            );
        }
        named?;
        let ghost moved = disk.changes();

        let old_path = names::manifest_path(self.dir.as_str(), old_gen);
        self.generation = new_gen;
        self.file = writer.file;
        self.checksum = writer.checksum;
        assert(self.contents() =~= log_of(state@.snapshot()));
        // One that stays is in nobody's way: nothing names it.
        let removed = disk.remove(old_path.as_str());
        proof {
            let ok = removed is Ok;
            assert(old_path@ == names::path_in(self.dir_text(), names::manifest_name(old_gen)));
            disk::went_softly_once(start, moved, Change::Removed { path: old_path@, ok });
            disk::went_on_once(start, moved, Change::Removed { path: old_path@, ok }, files);
            assert(disk.changes() =~= start + rolling_changes(self.dir_text(), old_gen, ok));
        }
        Ok(())
    }
}

/// Whether `CURRENT` was once read, and named this generation.
pub open spec fn named<F: Fs>(dir: Seq<char>, generation: u64) -> bool {
    exists|bytes: Seq<u8>| #[trigger]
        F::answered(names::path_in(dir, names::CURRENT_FILENAME@), OpenMode::Read, Ok(bytes))
            && names::generation_in(names::utf8_lossy(bytes)) == Ok::<u64, ErrorView>(generation)
}

/// Whether the manifest at this path was once read, and replayed to this state.
/// Where there is no file, nothing is live.
pub open spec fn read_back<F: Fs>(path: Seq<char>, state: StateView) -> bool {
    exists|answer: core::result::Result<Seq<u8>, IoErrorView>| #[trigger]
        F::answered(path, OpenMode::Read, answer) && match answer {
            Ok(log) => replayed(path, log) == Ok::<StateView, ErrorView>(state),
            Err(x) => x.kind == IoErrorKind::NotFound && state == StateView::empty(),
        }
}

/// Whether the manifest of a directory was found like this: `CURRENT` names the
/// generation, and the log of that generation replays to the state.
pub open spec fn found<F: Fs>(dir: Seq<char>, generation: u64, state: StateView) -> bool {
    &&& named::<F>(dir, generation)
    &&& read_back::<F>(names::path_in(dir, names::manifest_name(generation)), state)
}

/// Whether the file of a generation was once to be removed. That it could not be
/// is no failure: nothing names it any more.
pub open spec fn discarded<F: Fs>(dir: Seq<char>, generation: u64) -> bool {
    exists|answer: core::result::Result<(), IoErrorView>| #[trigger]
        F::removed(names::path_in(dir, names::manifest_name(generation)), answer)
}

/// Whether `CURRENT` was once opened, and finding the generation that it names
/// ended in this error.
pub open spec fn unnamed<F: Fs>(dir: Seq<char>, e: ErrorView) -> bool {
    exists|answer: core::result::Result<Seq<u8>, IoErrorView>| #[trigger]
        F::answered(names::path_in(dir, names::CURRENT_FILENAME@), OpenMode::Read, answer)
            && match answer {
            Ok(bytes) => fs::unread::<F::File>(bytes.len(), e) || names::generation_in(
                names::utf8_lossy(bytes),
            ) == Err::<u64, ErrorView>(e),
            Err(x) => e == ErrorView::Io(x),
        }
}

/// Whether the manifest at this path was once opened, and reading it ended in
/// this error. That there is no file is no failure.
pub open spec fn unreplayed<F: Fs>(path: Seq<char>, e: ErrorView) -> bool {
    exists|answer: core::result::Result<Seq<u8>, IoErrorView>| #[trigger]
        F::answered(path, OpenMode::Read, answer) && match answer {
            Ok(log) => fs::unread::<F::File>(log.len(), e) || replayed(path, log) == Err::<
                StateView,
                ErrorView,
            >(e),
            Err(x) => x.kind != IoErrorKind::NotFound && e == ErrorView::Io(x),
        }
}

/// The refusal to write another generation behind the last number.
pub open spec fn no_generation() -> ErrorView {
    ErrorView::Corrupt("manifest generations are exhausted"@)
}

/// Whether an error is one that opening the manifest of a directory can end in:
/// `CURRENT` names no generation, or the one that it names cannot be read, cannot
/// be written anew, or is the last one.
pub open spec fn unfound<F: Fs>(dir: Seq<char>, e: ErrorView) -> bool {
    ||| unnamed::<F>(dir, e)
    ||| exists|generation: u64| #[trigger]
        named::<F>(dir, generation) && {
            ||| unreplayed::<F>(names::path_in(dir, names::manifest_name(generation)), e)
            ||| fs::handed_on::<F::File>(e)
            ||| generation == u64::MAX && e == no_generation()
        }
}

/// The generation that `CURRENT` names.
fn read_current<F: Fs, H: Holder<F = F>>(disk: &Disk<H>, dir: &str) -> (r: Result<u64>)
    ensures
        r matches Ok(n) ==> named::<F>(dir@, n),
        r matches Err(e) ==> unnamed::<F>(dir@, e@),
        r is Err ==> r->Err_0 is Io || r->Err_0 is Corrupt,
{
    let path = names::join(dir, names::CURRENT_FILENAME);
    let file = match disk.look(path.as_str()) {
        Ok(f) => f,
        Err(e) => {
            assert(F::answered(path@, OpenMode::Read, Err(e@)));
            return Err(Error::Io(e));
        },
    };
    assert(F::answered(path@, OpenMode::Read, Ok(file.contents())));
    let content = match file.read_all() {
        Ok(v) => v,
        Err(e) => return Err(Error::Io(e)),
    };
    names::parse_current(content.as_slice())
}

/// Whether `CURRENT` was made to name a generation: the text that names it was
/// made durable beside `CURRENT`, renamed to it, and the name made durable too.
pub open spec fn is_current<F: Fs>(dir: Seq<char>, generation: u64) -> bool {
    &&& F::File::synced(
        names::path_in(dir, "CURRENT.tmp"@),
        vstd::utf8::encode_utf8(names::current_text(generation)),
    )
    &&& F::renamed(
        names::path_in(dir, "CURRENT.tmp"@),
        names::path_in(dir, names::CURRENT_FILENAME@),
    )
    &&& F::dir_synced(dir)
}

/// The paths that a change of `CURRENT` is about.
pub open spec fn current_files(dir: Seq<char>) -> Set<Seq<char>> {
    set![
        names::path_in(dir, "CURRENT.tmp"@),
        names::path_in(dir, names::CURRENT_FILENAME@),
    ]
}

/// The paths of `CURRENT` and of all generations of the manifest in a directory.
pub open spec fn manifest_files(dir: Seq<char>) -> Set<Seq<char>> {
    Set::new(|path: Seq<char>| is_manifest_file(dir, path))
}

/// Whether this is the path of `CURRENT` or of a generation of the manifest in a
/// directory.
pub open spec fn is_manifest_file(dir: Seq<char>, path: Seq<char>) -> bool {
    ||| path == names::path_in(dir, "CURRENT.tmp"@)
    ||| path == names::path_in(dir, names::CURRENT_FILENAME@)
    ||| exists|generation: u64|
        path == names::path_in(dir, #[trigger] names::manifest_name(generation))
}

/// Generations, and what `CURRENT` is written to, are written anew at any time.
proof fn scratch_paths(dir: Seq<char>, generation: u64)
    ensures
        disk::is_scratch(names::path_in(dir, names::manifest_name(generation))),
        disk::is_scratch(names::path_in(dir, "CURRENT.tmp"@)),
{
    names::manifest_path_ends(dir, generation);
    reveal_strlit("CURRENT.tmp");
    names::path_ends_in_name(dir, "CURRENT.tmp"@);
}

/// What is done to make `CURRENT` name a generation: the text is written beside it
/// and moved there.
pub open spec fn naming_changes(dir: Seq<char>, generation: u64) -> Seq<Change> {
    let tmp = names::path_in(dir, "CURRENT.tmp"@);
    seq![
        Change::Opened { path: tmp, mode: OpenMode::Truncate },
        Change::Closed {
            path: tmp,
            bytes: vstd::utf8::encode_utf8(names::current_text(generation)),
        },
        Change::Renamed {
            from: tmp,
            to: names::path_in(dir, names::CURRENT_FILENAME@),
            ok: true,
        },
    ]
}

/// What is done to create a generation of the manifest and make it the live one.
/// The manifest stays open.
pub open spec fn creation_changes(dir: Seq<char>, generation: u64) -> Seq<Change> {
    seq![
        Change::Opened {
            path: names::path_in(dir, names::manifest_name(generation)),
            mode: OpenMode::Truncate,
        },
    ] + naming_changes(dir, generation)
}

/// What is done to put the next generation in the place of this one, which is
/// removed last. Whether that succeeds matters to nobody.
pub open spec fn rolling_changes(dir: Seq<char>, generation: u64, ok: bool) -> Seq<Change> {
    creation_changes(dir, (generation + 1) as u64).push(
        Change::Removed { path: names::path_in(dir, names::manifest_name(generation)), ok },
    )
}

/// What is done to open the manifest of a directory, of which this is the live
/// generation.
pub open spec fn opening_changes(dir: Seq<char>, generation: u64, ok: bool) -> Seq<Change> {
    seq![
        Change::Opened {
            path: names::path_in(dir, names::manifest_name(generation)),
            mode: OpenMode::Append,
        },
    ] + rolling_changes(dir, generation, ok)
}

/// Make `CURRENT` name a generation, by a rename.
fn write_current<F: Fs, H: Holder<F = F>>(disk: &mut Disk<H>, dir: &str, generation: u64) -> (r:
    Result<()>)
    ensures
        r is Ok ==> final(disk).changes() == old(disk).changes() + naming_changes(dir@, generation),
        disk::went_on(old(disk).changes(), final(disk).changes(), current_files(dir@)),
        disk::went_softly(old(disk).changes(), final(disk).changes()),
        r is Ok ==> is_current::<F>(dir@, generation),
        r matches Err(e) ==> fs::handed_on::<F::File>(e@),
{
    let tmp = names::join(dir, "CURRENT.tmp");
    let line = names::current_line(generation);
    let ghost start = disk.changes();
    let ghost files = current_files(dir@);
    proof {
        disk::went_nowhere(start, files);
        scratch_paths(dir@, 0);
        disk::went_softly_once(
            start,
            start,
            Change::Opened { path: tmp@, mode: OpenMode::Truncate },
        );
        disk::went_on_once(
            start,
            start,
            Change::Opened { path: tmp@, mode: OpenMode::Truncate },
            files,
        );
    }
    let mut file = match disk.open(tmp.as_str(), OpenMode::Truncate) {
        Ok(f) => f,
        Err(e) => return Err(Error::Io(e)),
    };
    match file.append(line.as_str().as_bytes()) {
        Ok(()) => {},
        Err(e) => return Err(Error::Io(e)),
    }
    assert(file.contents() =~= vstd::utf8::encode_utf8(line@));
    match file.sync() {
        Ok(()) => {},
        Err(e) => return Err(Error::Io(e)),
    }
    let ghost mid = disk.changes();
    let ghost left = file.contents();
    disk.close(file);
    let current = names::join(dir, names::CURRENT_FILENAME);
    let ghost put = disk.changes();
    let moved = disk.rename(tmp.as_str(), current.as_str());
    proof {
        let ok = moved is Ok;
        disk::went_softly_once(start, mid, Change::Closed { path: tmp@, bytes: left });
        disk::went_softly_once(start, put, Change::Renamed { from: tmp@, to: current@, ok });
        disk::went_on_once(start, mid, Change::Closed { path: tmp@, bytes: left }, files);
        disk::went_on_once(
            start,
            put,
            Change::Renamed { from: tmp@, to: current@, ok },
            files,
        );
        if ok {
            assert(disk.changes() =~= start + naming_changes(dir@, generation));
        }
    }
    match moved {
        Ok(()) => {},
        Err(e) => return Err(Error::Io(e)),
    }
    match disk.sync_dir(dir) {
        Ok(()) => Ok(()),
        Err(e) => Err(Error::Io(e)),
    }
}

/// The front of a manifest decides of what kind it is.
proof fn kind_from_front(log: Seq<u8>)
    ensures
        manifest_kind(
            log.take(
                if log.len() < 8 {
                    log.len() as int
                } else {
                    8
                },
            ),
        ) == manifest_kind(log),
{
    if log.len() < 8 {
        assert(log.take(log.len() as int) =~= log);
    } else {
        let front = log.take(8);
        assert(front.subrange(0, 4) =~= log.subrange(0, 4));
        assert(front.subrange(4, 6) =~= log.subrange(4, 6));
    }
}

/// What kind of manifest the file at `path` is, so that an append to it uses
/// that generation's checksum.
fn classify_manifest<F: Fs, H: Holder<F = F>>(disk: &Disk<H>, path: &str) -> (r: Result<Kind>)
    ensures
        r matches Ok(kind) ==> exists|answer: core::result::Result<Seq<u8>, IoErrorView>|
         #[trigger]
            F::answered(path@, OpenMode::Read, answer) && match answer {
                Ok(log) => manifest_kind(log) == Ok::<Kind, ErrorView>(kind),
                Err(x) => x.kind == IoErrorKind::NotFound && kind == Kind::Empty,
            },
        r matches Err(e) ==> unreplayed::<F>(path@, e@),
        r is Err ==> r->Err_0 is Io || r->Err_0 is BadFormat,
{
    let front = match disk.look(path) {
        Ok(f) => {
            assert(F::answered(path@, OpenMode::Read, Ok(f.contents())));
            proof {
                kind_from_front(f.contents());
            }
            match f.read_front() {
                Ok(v) => v,
                Err(e) => return Err(Error::Io(e)),
            }
        },
        Err(e) => {
            assert(F::answered(path@, OpenMode::Read, Err(e@)));
            if e.kind() != IoErrorKind::NotFound {
                return Err(Error::Io(e));
            }
            Vec::new()
        },
    };
    header::classify(front.as_slice(), MANIFEST_MAGIC, MANIFEST_VERSION, "the manifest")
}

/// Replay the manifest at `path`. Where there is no file, nothing is live.
pub fn replay<F: Fs, V: Volume<F>>(fs: V, path: &str) -> (r: Result<ManifestState>)
    ensures
        disk::ended::<F>(Seq::empty()),
        r matches Ok(state) ==> read_back::<F>(path@, state@),
        r matches Err(e) ==> unreplayed::<F>(path@, e@),
        r is Err ==> r->Err_0 is Io || r->Err_0 is Corrupt || r->Err_0 is BadFormat,
{
    let disk = fs.mount();
    let r = replay_on(&disk, path);
    disk.finish();
    r
}

/// Replay the manifest at `path`, as [`replay`] does.
pub(crate) fn replay_on<F: Fs, H: Holder<F = F>>(disk: &Disk<H>, path: &str) -> (r: Result<
    ManifestState,
>)
    ensures
        r matches Ok(state) ==> read_back::<F>(path@, state@),
        r matches Err(e) ==> unreplayed::<F>(path@, e@),
        r is Err ==> r->Err_0 is Io || r->Err_0 is Corrupt || r->Err_0 is BadFormat,
{
    let log = match disk.look(path) {
        Ok(f) => {
            assert(F::answered(path@, OpenMode::Read, Ok(f.contents())));
            match f.read_all() {
                Ok(v) => v,
                Err(e) => return Err(Error::Io(e)),
            }
        },
        Err(e) => {
            assert(F::answered(path@, OpenMode::Read, Err(e@)));
            if e.kind() == IoErrorKind::NotFound {
                return Ok(ManifestState::default());
            }
            return Err(Error::Io(e));
        },
    };
    proof {
        if let Ok(kind) = manifest_kind(log@) {
            edit_errors_are_corrupt(manifest_payloads(log@, kind));
        }
    }
    replay_bytes(path, log.as_slice())
}

/// What stands in the bytes of an edit: a tag for its kind, and its number, lowest byte
/// first.
pub proof fn edit_layout(edit: VersionEdit)
    ensures
        edit.payload().len() == 9,
        edit.payload()[0] == match edit {
            VersionEdit::AddTable { id } => 0u8,
            VersionEdit::DeleteTable { id } => 1u8,
            VersionEdit::SetNextSeq(n) => 2u8,
            VersionEdit::SetNextSstId(n) => 3u8,
        },
        bytes::from_le(edit.payload().skip(1)) == match edit {
            VersionEdit::AddTable { id } => id,
            VersionEdit::DeleteTable { id } => id,
            VersionEdit::SetNextSeq(n) => n,
            VersionEdit::SetNextSstId(n) => n,
        },
{
    bytes::spans();
    bytes::le_round_trip(edit.body() as nat, 8);
    assert(edit.payload().skip(1) =~= bytes::le(edit.body() as nat, 8));
}

/// What the last edit says holds: a table that it adds is live, one that it deletes is
/// not, and a counter that it sets stands there. Everything else is as it was.
pub proof fn last_edit_holds(start: StateView, edits: Seq<VersionEdit>, edit: VersionEdit)
    ensures
        ({
            let before = start.applied_all(edits);
            let after = start.applied_all(edits.push(edit));
            match edit {
                VersionEdit::AddTable { id } => after == StateView {
                    live_tables: before.live_tables.insert(id),
                    ..before
                },
                VersionEdit::DeleteTable { id } => after == StateView {
                    live_tables: before.live_tables.remove(id),
                    ..before
                },
                VersionEdit::SetNextSeq(n) => after == StateView { next_seq: n, ..before },
                VersionEdit::SetNextSstId(n) => after == StateView { next_sst_id: n, ..before },
            }
        }),
{
    assert(edits.push(edit).drop_last() =~= edits);
}

/// The frames of a manifest that this build writes carry CRC32C of all of an edit's
/// bytes: what stands in front of them is that number and their length.
pub proof fn manifest_frames_carry_crc32c(edits: Seq<VersionEdit>, edit: VersionEdit)
    ensures
        log_of(edits.push(edit)) == log_of(edits) + (bytes::le(
            hash::castagnoli(edit.payload()) as nat,
            4,
        ) + bytes::le(9, 4) + edit.payload()),
{
    edit_round_trip(edit);
    let ps = edit_payloads(edits.push(edit));
    assert(ps.drop_last() =~= edit_payloads(edits));
    assert(log_of(edits.push(edit)) =~= log_of(edits) + (bytes::le(
        hash::castagnoli(edit.payload()) as nat,
        4,
    ) + bytes::le(9, 4) + edit.payload()));
}

/// A manifest that this build starts is eight bytes: `LSMM`, the version, and two zeros.
pub proof fn fresh_manifest_layout()
    ensures
        log_of(Seq::empty()) == seq![76u8, 83u8, 77u8, 77u8, 2u8, 0u8, 0u8, 0u8],
{
    let log = log_of(Seq::empty());
    header::header_layout(MANIFEST_MAGIC@, MANIFEST_VERSION);
    assert(edit_payloads(Seq::empty()) =~= Seq::empty());
    let front = header::header_bytes(MANIFEST_MAGIC@, MANIFEST_VERSION);
    assert(log =~= front);
    assert forall|i: int| 0 <= i < 4 implies log[i] == MANIFEST_MAGIC@[i] by {
        assert(front.take(4)[i] == front[i]);
    }
    assert(log =~= seq![76u8, 83u8, 77u8, 77u8, 2u8, 0u8, 0u8, 0u8]);
}

/// An edit is read only from its own bytes.
pub proof fn only_its_payload_is_read(payload: Seq<u8>)
    ensures
        VersionEdit::from_payload(payload) matches Ok(edit) ==> payload == edit.payload(),
        VersionEdit::from_payload(payload) is Ok <==> payload.len() == 9 && payload[0] <= 3,
{
    if let Ok(edit) = VersionEdit::from_payload(payload) {
        bytes::spans();
        bytes::from_le_round_trip(payload.subrange(1, 9));
        assert(payload =~= edit.payload());
    }
}

} // verus!
