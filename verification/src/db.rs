//! The store: the index of live keys and the state of the active log file.
//!
//! Disk work is the caller's. Each operation here decides and updates state;
//! it hands back what must be written or read, and is told what was found.
//! A write goes: `set` or `remove` plans the append; when the plan says so,
//! the caller makes the active file read-only, calls `set_new_active_file`,
//! counts the log files and, where `check_compaction` says so, carries out
//! the plan of `compact_log` (copying the live frames into the first log
//! file) and calls `finish_compaction`; then it appends the planned frame to
//! the active file and calls `finish_append`. The byte counter is the active
//! file's length, so each key's entry points at the frame written for it.

use vstd::prelude::*;
use vstd::slice::slice_to_vec;
use vstd::string::StringExecFns;
use vstd::slice::slice_subrange;
use crate::binarylog::{
    BinaryLog, LogEntry, OperationType, decodable, decode_spec, encoded_log, fields_fit,
    lemma_encoded_log_len_field, lemma_encoded_log_roundtrip, record_crc, stored_crc,
};
use crate::codec::{le_u32, read_u32_le};
use crate::error::{DBError, unexpected_eof_error};
use crate::file::{format_log_file_path, join_path, log_file_name, log_threshold_exceed};
use crate::index::{KeyIndex, MapValue, key_views, lists_entries_outside};

verus! {

/// The store as values.
pub struct DbState {
    /// For each live key, where its latest record lies.
    pub index: Map<Seq<u8>, MapValue>,
    /// The path of the log file that appends go to.
    pub active_file: Seq<char>,
    pub active_file_id: u32,
    /// The length of the active file: the offset at which the next frame lands.
    pub byte_counter: u32,
    pub dir: Seq<char>,
    /// The most bytes that one log file may hold.
    pub max_bytes: u32,
    /// The most log files before they are compacted.
    pub max_logs: u32,
}

/// The store.
pub struct DB {
    map: KeyIndex,
    active_file: String,
    active_file_id: u32,
    byte_counter: u32,
    dir: String,
    max_bytes: u32,
    max_logs: u32,
}

impl View for DB {
    type V = DbState;

    closed spec fn view(&self) -> DbState {
        DbState {
            index: self.map@,
            active_file: self.active_file@,
            active_file_id: self.active_file_id,
            byte_counter: self.byte_counter,
            dir: self.dir@,
            max_bytes: self.max_bytes,
            max_logs: self.max_logs,
        }
    }
}

/// The length field of the frame for a record with keys and values of these
/// lengths: 21 header bytes and the key and value, as a `u32`.
pub open spec fn record_len_field(key_len: nat, val_len: nat) -> u32 {
    (key_len + val_len + 21) as u32
}

/// Appending a frame whose length field is `record_size` overflows no
/// count: neither the frame's size nor the active file's size after it.
pub open spec fn append_fits(byte_counter: u32, record_size: u32) -> bool {
    byte_counter + record_size + 4 <= u32::MAX
}

/// The size the active file reaches with a frame whose length field is `record_size`.
pub open spec fn append_total(s: DbState, record_size: u32) -> int {
    s.byte_counter + record_size + 4
}

/// The first log file is active and the frame alone passes the byte limit:
/// a first value that no log file can take. (From a later file the store
/// rotates and writes the frame, as it does for any frame that does not fit.)
pub open spec fn too_large(s: DbState, record_size: u32) -> bool {
    s.active_file_id == 1 && record_size + 4 > s.max_bytes
}

/// An append that has been planned and not yet done.
pub struct PendingAppend {
    key: Vec<u8>,
    op: OperationType,
    record: Vec<u8>,
    record_size: u32,
    total: u32,
    rotate: bool,
}

/// A planned append as values.
pub struct AppendPlan {
    pub key: Seq<u8>,
    pub op: OperationType,
    /// The frame to append to the active log file.
    pub record: Seq<u8>,
    /// The frame's length field.
    pub record_size: u32,
    /// The length the active file would reach with the frame, counted before any rotation.
    pub total: u32,
    /// The active file must be sealed and a new one started first.
    pub rotate: bool,
}

impl View for PendingAppend {
    type V = AppendPlan;

    closed spec fn view(&self) -> AppendPlan {
        AppendPlan {
            key: self.key@,
            op: self.op,
            record: self.record@,
            record_size: self.record_size,
            total: self.total,
            rotate: self.rotate,
        }
    }
}

impl PendingAppend {
    /// The frame to append.
    pub fn record(&self) -> (r: &[u8])
        ensures
            r@ == self@.record,
    {
        self.record.as_slice()
    }

    /// The frame's length field.
    pub fn record_size(&self) -> (n: u32)
        ensures
            n == self@.record_size,
    {
        self.record_size
    }

    /// The length the active file would reach with the frame, counted before any rotation.
    pub fn total(&self) -> (t: u32)
        ensures
            t == self@.total,
    {
        self.total
    }

    /// Whether a new active file must be started before the append.
    pub fn rotates(&self) -> (b: bool)
        ensures
            b == self@.rotate,
    {
        self.rotate
    }
}

/// The plan that writing `key` with operation `op` yields on a store in
/// state `s`, whatever the frame's bytes.
pub open spec fn plans_append(s: DbState, p: AppendPlan, key: Seq<u8>, op: OperationType, record_size: u32) -> bool {
    &&& p.key == key
    &&& p.op == op
    &&& p.record_size == record_size
    &&& p.total == append_total(s, record_size)
    &&& p.rotate == (append_total(s, record_size) > s.max_bytes)
}

/// What compaction must do: copy the frames of the listed entries, which
/// lie outside the active file, one after another into log file
/// `target_file_id`, in the order listed.
pub struct CompactionPlan {
    sources: Vec<MapValue>,
    target_file_id: u32,
    keys: Vec<Vec<u8>>,
}

/// A compaction plan as values.
pub struct CompactionView {
    /// The key of each listed entry.
    pub keys: Seq<Seq<u8>>,
    /// Where each listed entry's frame lies now.
    pub sources: Seq<MapValue>,
    pub target_file_id: u32,
}

impl View for CompactionPlan {
    type V = CompactionView;

    closed spec fn view(&self) -> CompactionView {
        CompactionView {
            keys: key_views(self.keys@),
            sources: self.sources@,
            target_file_id: self.target_file_id,
        }
    }
}

impl CompactionPlan {
    /// Where each listed entry's frame lies now, in the order of copying.
    pub fn sources(&self) -> (v: &[MapValue])
        ensures
            v@ == self@.sources,
    {
        self.sources.as_slice()
    }

    /// The log file that the copies go to.
    pub fn target_file_id(&self) -> (id: u32)
        ensures
            id == self@.target_file_id,
    {
        self.target_file_id
    }
}

/// The total length of the frames at these locations.
pub open spec fn frames_len(vs: Seq<MapValue>) -> nat
    decreases vs.len(),
{
    if vs.len() == 0 {
        0
    } else {
        frames_len(vs.drop_last()) + vs.last().record_size as nat + 4
    }
}

/// The index after the frames of keys `ks`, at locations `vs`, were copied
/// one after another into log file 1 from byte `pos` on: each key points at
/// its copy.
pub open spec fn compacted_index(
    index: Map<Seq<u8>, MapValue>,
    ks: Seq<Seq<u8>>,
    vs: Seq<MapValue>,
    pos: nat,
) -> Map<Seq<u8>, MapValue>
    decreases ks.len(),
{
    if ks.len() == 0 || vs.len() == 0 {
        index
    } else {
        compacted_index(
            index.insert(
                ks[0],
                MapValue { offset: pos as u32, record_size: vs[0].record_size, file_id: 1 },
            ),
            ks.subrange(1, ks.len() as int),
            vs.subrange(1, vs.len() as int),
            pos + vs[0].record_size as nat + 4,
        )
    }
}

/// Where a record lies on disk: read `len` bytes from `position` in the file at `path`.
pub struct RecordLocation {
    pub path: String,
    pub position: u64,
    pub len: usize,
}

/// How reading a log file ended.
pub enum LoadStop {
    /// Fewer than four bytes were left where a frame would start.
    Clean,
    /// A frame's length field announced more bytes than were left.
    Truncated,
    /// A record failed its CRC or named no operation.
    Corrupted,
}

/// The index after a record: a set key points at the record, a removed key is gone.
pub open spec fn apply_entry(
    index: Map<Seq<u8>, MapValue>,
    e: LogEntry,
    file_id: u32,
    offset: nat,
    record_size: nat,
) -> Map<Seq<u8>, MapValue> {
    match e.op {
        OperationType::Put => index.insert(
            e.key,
            MapValue { offset: offset as u32, record_size: record_size as u32, file_id },
        ),
        OperationType::Remove => index.remove(e.key),
    }
}

/// The length field of the frame at `pos`.
pub open spec fn frame_len_at(contents: Seq<u8>, pos: nat) -> nat {
    le_u32(contents.subrange(pos as int, pos + 4 as int)) as nat
}

/// The record of the frame at `pos`.
pub open spec fn record_at(contents: Seq<u8>, pos: nat) -> Seq<u8> {
    contents.subrange(pos + 4 as int, pos + 4 + frame_len_at(contents, pos) as int)
}

/// The index reached by reading the frames of a log file from byte `pos`
/// on, each record applied in turn, and how the reading ended.
pub open spec fn replay_from(
    index: Map<Seq<u8>, MapValue>,
    file_id: u32,
    contents: Seq<u8>,
    pos: nat,
) -> (Map<Seq<u8>, MapValue>, LoadStop)
    decreases contents.len() - pos,
{
    if pos + 4 > contents.len() {
        (index, LoadStop::Clean)
    } else if pos + 4 + frame_len_at(contents, pos) > contents.len() {
        (index, LoadStop::Truncated)
    } else {
        let record = record_at(contents, pos);
        match decode_spec(record, record_crc(record)) {
            Err(_) => (index, LoadStop::Corrupted),
            Ok(e) => replay_from(
                apply_entry(index, e, file_id, pos, frame_len_at(contents, pos)),
                file_id,
                contents,
                pos + 4 + frame_len_at(contents, pos),
            ),
        }
    }
}

/// Reading the frames from byte `pos` on never reads past a record's end:
/// each record that is read is `decodable` against its body's CRC.
pub open spec fn replay_safe_from(contents: Seq<u8>, pos: nat) -> bool
    decreases contents.len() - pos,
{
    if pos + 4 > contents.len() {
        true
    } else if pos + 4 + frame_len_at(contents, pos) > contents.len() {
        true
    } else {
        let record = record_at(contents, pos);
        &&& decodable(record, record_crc(record))
        &&& decode_spec(record, record_crc(record)) is Ok ==> replay_safe_from(
            contents,
            pos + 4 + frame_len_at(contents, pos),
        )
    }
}

/// Loading log file `file_id` at `path` with these contents took the store
/// from `before` to `after` with result `r`: the file became the active one,
/// its records were applied to the index in order, and the result tells how
/// the reading ended.
pub open spec fn loads_log_file(
    before: DbState,
    after: DbState,
    path: Seq<char>,
    file_id: u32,
    contents: Seq<u8>,
    r: Result<(), DBError>,
) -> bool {
    let replayed = replay_from(before.index, file_id, contents, 0);
    &&& after == DbState {
        index: replayed.0,
        active_file: path,
        active_file_id: file_id,
        byte_counter: contents.len() as u32,
        ..before
    }
    &&& match (r, replayed.1) {
        (Ok(_), LoadStop::Clean) => true,
        (Err(e), LoadStop::Truncated) => e is IoError,
        (Err(e), LoadStop::Corrupted) => e is CorruptedValue,
        _ => false,
    }
}

/// The frames of these records, in order, as `encoded_log` writes each.
pub open spec fn encode_all(entries: Seq<LogEntry>) -> Seq<u8>
    decreases entries.len(),
{
    if entries.len() == 0 {
        Seq::empty()
    } else {
        encoded_log(entries[0].timestamp, entries[0].op, entries[0].key, entries[0].val)
            + encode_all(entries.subrange(1, entries.len() as int))
    }
}

/// The index after applying these records in order, their frames laid one
/// after another from byte `pos` on.
pub open spec fn apply_all(
    index: Map<Seq<u8>, MapValue>,
    file_id: u32,
    pos: nat,
    entries: Seq<LogEntry>,
) -> Map<Seq<u8>, MapValue>
    decreases entries.len(),
{
    if entries.len() == 0 {
        index
    } else {
        let e = entries[0];
        let size = e.key.len() + e.val.len() + 21;
        apply_all(
            apply_entry(index, e, file_id, pos, size),
            file_id,
            pos + size + 4,
            entries.subrange(1, entries.len() as int),
        )
    }
}

/// The record's length fits its frame's `u32` length field.
pub open spec fn entry_fits(e: LogEntry) -> bool {
    e.key.len() + e.val.len() + 21 <= u32::MAX
}

/// Reading back a log file made of written frames applies their records in
/// the order they were written, each at the offset of its frame, and ends
/// cleanly; no record in it stops the reading. This holds for every run of
/// records whose lengths fit their frames' length fields.
pub proof fn lemma_replay_written_frames(
    index: Map<Seq<u8>, MapValue>,
    file_id: u32,
    entries: Seq<LogEntry>,
)
    requires
        forall|i: int| 0 <= i < entries.len() ==> entry_fits(#[trigger] entries[i]),
    ensures
        replay_safe_from(encode_all(entries), 0),
        replay_from(index, file_id, encode_all(entries), 0) == (
            apply_all(index, file_id, 0, entries),
            LoadStop::Clean,
        ),
{
    lemma_replay_after(Seq::empty(), index, file_id, entries);
    assert(Seq::<u8>::empty() + encode_all(entries) =~= encode_all(entries));
}

/// Reading a written frame at `pos` applies its record and moves past it.
#[verifier::spinoff_prover]
proof fn lemma_replay_step(
    contents: Seq<u8>,
    pos: nat,
    index: Map<Seq<u8>, MapValue>,
    file_id: u32,
    e: LogEntry,
)
    requires
        entry_fits(e),
        pos + encoded_log(e.timestamp, e.op, e.key, e.val).len() <= contents.len(),
        contents.subrange(pos as int, pos + encoded_log(e.timestamp, e.op, e.key, e.val).len() as int)
            == encoded_log(e.timestamp, e.op, e.key, e.val),
    ensures
        encoded_log(e.timestamp, e.op, e.key, e.val).len() == e.key.len() + e.val.len() + 25,
        replay_safe_from(contents, pos) == replay_safe_from(
            contents,
            pos + e.key.len() + e.val.len() + 25,
        ),
        replay_from(index, file_id, contents, pos) == replay_from(
            apply_entry(index, e, file_id, pos, e.key.len() + e.val.len() + 21),
            file_id,
            contents,
            pos + e.key.len() + e.val.len() + 25,
        ),
{
    let f = encoded_log(e.timestamp, e.op, e.key, e.val);
    let n = e.key.len() + e.val.len() + 21;
    let record = f.subrange(4, f.len() as int);
    lemma_encoded_log_roundtrip(e.timestamp, e.op, e.key, e.val);
    assert(f.subrange(0, 4 as int) =~= f.subrange(0, 4));
    assert(contents.subrange(pos as int, pos + 4 as int) =~= f.subrange(0, 4));
    assert(frame_len_at(contents, pos) == n);
    assert(record_at(contents, pos) =~= record);
}

proof fn lemma_replay_after(
    prefix: Seq<u8>,
    index: Map<Seq<u8>, MapValue>,
    file_id: u32,
    entries: Seq<LogEntry>,
)
    requires
        forall|i: int| 0 <= i < entries.len() ==> entry_fits(#[trigger] entries[i]),
    ensures
        replay_safe_from(prefix + encode_all(entries), prefix.len()),
        replay_from(index, file_id, prefix + encode_all(entries), prefix.len()) == (
            apply_all(index, file_id, prefix.len(), entries),
            LoadStop::Clean,
        ),
    decreases entries.len(),
{
    let contents = prefix + encode_all(entries);
    let pos = prefix.len();
    if entries.len() == 0 {
        assert(contents =~= prefix);
    } else {
        let e = entries[0];
        let rest = entries.subrange(1, entries.len() as int);
        assert(entry_fits(entries[0]));
        let f = encoded_log(e.timestamp, e.op, e.key, e.val);
        let n = e.key.len() + e.val.len() + 21;
        lemma_encoded_log_len_field(e.timestamp, e.op, e.key, e.val);
        assert(contents =~= (prefix + f) + encode_all(rest));
        assert(contents.subrange(pos as int, pos + f.len() as int) =~= f);
        lemma_replay_step(contents, pos, index, file_id, e);
        assert forall|i: int| 0 <= i < rest.len() implies entry_fits(#[trigger] rest[i]) by {
            assert(rest[i] == entries[i + 1]);
        }
        lemma_replay_after(prefix + f, apply_entry(index, e, file_id, pos, n), file_id, rest);
    }
}

/// The store after the planned append was written at the end of the active
/// file: a set key points at the new frame, which begins where the file
/// ended, a removed key is gone, and the file's length grows by the frame's.
pub open spec fn after_append(s: DbState, p: AppendPlan) -> DbState {
    DbState {
        index: match p.op {
            OperationType::Put => s.index.insert(
                p.key,
                MapValue {
                    offset: s.byte_counter,
                    record_size: p.record_size,
                    file_id: s.active_file_id,
                },
            ),
            OperationType::Remove => s.index.remove(p.key),
        },
        byte_counter: (s.byte_counter + p.record_size + 4) as u32,
        ..s
    }
}

/// Frames written one after another: appending one more frame to the file
/// is writing one more record.
proof fn lemma_encode_all_push(entries: Seq<LogEntry>, e: LogEntry)
    ensures
        encode_all(entries.push(e)) == encode_all(entries) + encoded_log(
            e.timestamp,
            e.op,
            e.key,
            e.val,
        ),
    decreases entries.len(),
{
    let es2 = entries.push(e);
    if entries.len() == 0 {
        let tail = es2.subrange(1, es2.len() as int);
        assert(tail =~= Seq::<LogEntry>::empty());
        assert(encode_all(tail) == Seq::<u8>::empty());
        assert(es2[0] == e);
        assert(encode_all(es2) =~= encoded_log(e.timestamp, e.op, e.key, e.val));
    } else {
        let rest = entries.subrange(1, entries.len() as int);
        assert(es2.subrange(1, es2.len() as int) =~= rest.push(e));
        lemma_encode_all_push(rest, e);
        assert(es2[0] == entries[0]);
        assert(encode_all(es2) =~= encode_all(entries) + encoded_log(
            e.timestamp,
            e.op,
            e.key,
            e.val,
        ));
    }
}

/// Applying one more record applies it after the others, at the offset where
/// their frames end.
proof fn lemma_apply_all_push(
    index: Map<Seq<u8>, MapValue>,
    file_id: u32,
    pos: nat,
    entries: Seq<LogEntry>,
    e: LogEntry,
)
    ensures
        apply_all(index, file_id, pos, entries.push(e)) == apply_entry(
            apply_all(index, file_id, pos, entries),
            e,
            file_id,
            pos + encode_all(entries).len(),
            e.key.len() + e.val.len() + 21,
        ),
    decreases entries.len(),
{
    let es2 = entries.push(e);
    if entries.len() == 0 {
        let tail = es2.subrange(1, es2.len() as int);
        assert(tail =~= Seq::<LogEntry>::empty());
        assert(es2[0] == e);
        assert(encode_all(entries).len() == 0);
        let size = e.key.len() + e.val.len() + 21;
        assert(apply_all(apply_entry(index, e, file_id, pos, size), file_id, pos + size + 4, tail)
            == apply_entry(index, e, file_id, pos, size));
    } else {
        let e0 = entries[0];
        let rest = entries.subrange(1, entries.len() as int);
        let size = e0.key.len() + e0.val.len() + 21;
        assert(es2.subrange(1, es2.len() as int) =~= rest.push(e));
        assert(es2[0] == e0);
        lemma_encoded_log_len_field(e0.timestamp, e0.op, e0.key, e0.val);
        lemma_apply_all_push(
            apply_entry(index, e0, file_id, pos, size),
            file_id,
            pos + size + 4,
            rest,
            e,
        );
        lemma_encode_all_push(rest, e);
        assert(encode_all(entries) == encoded_log(e0.timestamp, e0.op, e0.key, e0.val)
            + encode_all(rest));
        assert(apply_all(index, file_id, pos, es2) == apply_all(
            apply_entry(index, e0, file_id, pos, size),
            file_id,
            pos + size + 4,
            rest.push(e),
        ));
    }
}

/// The copies a compaction writes read back to the index it records: where
/// the frames copied for keys `ks` are written frames setting those keys,
/// each as long as its listed location says, reading the compacted log file
/// applies them, cleanly, to exactly the index that `finish_compaction`
/// records.
pub proof fn lemma_compaction_reads_back(
    index: Map<Seq<u8>, MapValue>,
    ks: Seq<Seq<u8>>,
    vs: Seq<MapValue>,
    entries: Seq<LogEntry>,
)
    requires
        ks.len() == vs.len(),
        entries.len() == vs.len(),
        forall|i: int| 0 <= i < entries.len() ==> entry_fits(#[trigger] entries[i]),
        forall|i: int|
            0 <= i < entries.len() ==> {
                &&& (#[trigger] entries[i]).op == OperationType::Put
                &&& entries[i].key == ks[i]
                &&& entries[i].key.len() + entries[i].val.len() + 21 == vs[i].record_size
            },
    ensures
        replay_from(index, 1, encode_all(entries), 0) == (
            compacted_index(index, ks, vs, 0),
            LoadStop::Clean,
        ),
{
    lemma_replay_written_frames(index, 1, entries);
    lemma_apply_all_compacted(index, 0, ks, vs, entries);
}

proof fn lemma_apply_all_compacted(
    index: Map<Seq<u8>, MapValue>,
    pos: nat,
    ks: Seq<Seq<u8>>,
    vs: Seq<MapValue>,
    entries: Seq<LogEntry>,
)
    requires
        ks.len() == vs.len(),
        entries.len() == vs.len(),
        forall|i: int|
            0 <= i < entries.len() ==> {
                &&& (#[trigger] entries[i]).op == OperationType::Put
                &&& entries[i].key == ks[i]
                &&& entries[i].key.len() + entries[i].val.len() + 21 == vs[i].record_size
            },
    ensures
        apply_all(index, 1, pos, entries) == compacted_index(index, ks, vs, pos),
    decreases entries.len(),
{
    if entries.len() > 0 {
        let e = entries[0];
        assert(e.op == OperationType::Put && e.key == ks[0]);
        let rest = entries.subrange(1, entries.len() as int);
        let ks2 = ks.subrange(1, ks.len() as int);
        let vs2 = vs.subrange(1, vs.len() as int);
        assert forall|i: int| 0 <= i < rest.len() implies {
            &&& (#[trigger] rest[i]).op == OperationType::Put
            &&& rest[i].key == ks2[i]
            &&& rest[i].key.len() + rest[i].val.len() + 21 == vs2[i].record_size
        } by {
            assert(rest[i] == entries[i + 1]);
        }
        let size = e.key.len() + e.val.len() + 21;
        lemma_apply_all_compacted(
            apply_entry(index, e, 1, pos, size),
            pos + size + 4,
            ks2,
            vs2,
            rest,
        );
    }
}

/// Removing a key just set gives back the index from before the set.
pub proof fn lemma_remove_undoes_set(s: DbState, set: AppendPlan, remove: AppendPlan)
    requires
        !s.index.contains_key(set.key),
        set.op == OperationType::Put,
        remove.op == OperationType::Remove,
        remove.key == set.key,
    ensures
        after_append(after_append(s, set), remove).index == s.index,
{
    assert(after_append(after_append(s, set), remove).index =~= s.index);
}

/// The operation of the last record for key `k` among these, if any.
pub open spec fn last_op(entries: Seq<LogEntry>, k: Seq<u8>) -> Option<OperationType>
    decreases entries.len(),
{
    if entries.len() == 0 {
        None
    } else {
        match last_op(entries.subrange(1, entries.len() as int), k) {
            Some(op) => Some(op),
            None => if entries[0].key == k {
                Some(entries[0].op)
            } else {
                None
            },
        }
    }
}

/// What applying records does to one key: a key that no record names keeps
/// its entry, or its absence; a key whose last record sets it has an entry
/// in this file; a key whose last record removes it has none; and for a key
/// that some record names, the outcome does not depend on the index the
/// records were applied to.
pub proof fn lemma_apply_all_at(
    m: Map<Seq<u8>, MapValue>,
    m2: Map<Seq<u8>, MapValue>,
    file_id: u32,
    pos: nat,
    entries: Seq<LogEntry>,
    k: Seq<u8>,
)
    ensures
        ({
            let r = apply_all(m, file_id, pos, entries);
            let r2 = apply_all(m2, file_id, pos, entries);
            match last_op(entries, k) {
                None => r.contains_key(k) == m.contains_key(k) && (m.contains_key(k) ==> r[k]
                    == m[k]),
                Some(op) => {
                    &&& r.contains_key(k) == (op == OperationType::Put)
                    &&& (op == OperationType::Put ==> r[k].file_id == file_id)
                    &&& r2.contains_key(k) == r.contains_key(k)
                    &&& (r.contains_key(k) ==> r2[k] == r[k])
                },
            }
        }),
    decreases entries.len(),
{
    if entries.len() > 0 {
        let e = entries[0];
        let rest = entries.subrange(1, entries.len() as int);
        let size = e.key.len() + e.val.len() + 21;
        let m1 = apply_entry(m, e, file_id, pos, size);
        let m21 = apply_entry(m2, e, file_id, pos, size);
        lemma_apply_all_at(m1, m21, file_id, pos + size + 4, rest, k);
        assert(apply_all(m, file_id, pos, entries) == apply_all(m1, file_id, pos + size + 4, rest));
        assert(apply_all(m2, file_id, pos, entries) == apply_all(
            m21,
            file_id,
            pos + size + 4,
            rest,
        ));
        if last_op(rest, k) is None {
            lemma_apply_all_at(m21, m21, file_id, pos + size + 4, rest, k);
            if e.key == k {
                assert(last_op(entries, k) == Some(e.op));
                if e.op == OperationType::Put {
                    assert(m1.contains_key(k) && m21.contains_key(k) && m1[k] == m21[k]);
                } else {
                    assert(!m1.contains_key(k) && !m21.contains_key(k));
                }
            } else {
                assert(last_op(entries, k) is None);
            }
        } else {
            assert(last_op(entries, k) == last_op(rest, k));
        }
    }
}

/// The keys after a run of records are the keys whose last record sets
/// them, and the keys of the index before that no record names.
pub proof fn lemma_apply_all_keys(
    m: Map<Seq<u8>, MapValue>,
    file_id: u32,
    pos: nat,
    entries: Seq<LogEntry>,
    k: Seq<u8>,
)
    ensures
        apply_all(m, file_id, pos, entries).contains_key(k) == match last_op(entries, k) {
            Some(op) => op == OperationType::Put,
            None => m.contains_key(k),
        },
{
    lemma_apply_all_at(m, m, file_id, pos, entries, k);
}

/// What compaction does to one key: a listed key points at its copy in the
/// first log file, whatever the index was; any other key keeps its entry,
/// or its absence.
proof fn lemma_compacted_index_at(
    m: Map<Seq<u8>, MapValue>,
    m2: Map<Seq<u8>, MapValue>,
    ks: Seq<Seq<u8>>,
    vs: Seq<MapValue>,
    pos: nat,
    k: Seq<u8>,
)
    requires
        ks.len() == vs.len(),
        forall|a: int, b: int| 0 <= a < b < ks.len() ==> #[trigger] ks[a] != #[trigger] ks[b],
    ensures
        ({
            let r = compacted_index(m, ks, vs, pos);
            let r2 = compacted_index(m2, ks, vs, pos);
            if ks.contains(k) {
                &&& r.contains_key(k)
                &&& r2.contains_key(k)
                &&& r[k] == r2[k]
                &&& r[k].file_id == 1
            } else {
                &&& r.contains_key(k) == m.contains_key(k)
                &&& m.contains_key(k) ==> r[k] == m[k]
            }
        }),
    decreases ks.len(),
{
    if ks.len() > 0 {
        let ks2 = ks.subrange(1, ks.len() as int);
        let vs2 = vs.subrange(1, vs.len() as int);
        let v = MapValue { offset: pos as u32, record_size: vs[0].record_size, file_id: 1 };
        assert forall|a: int, b: int| 0 <= a < b < ks2.len() implies #[trigger] ks2[a]
            != #[trigger] ks2[b] by {
            assert(ks2[a] == ks[a + 1] && ks2[b] == ks[b + 1]);
        }
        lemma_compacted_index_at(
            m.insert(ks[0], v),
            m2.insert(ks[0], v),
            ks2,
            vs2,
            pos + vs[0].record_size as nat + 4,
            k,
        );
        assert(compacted_index(m, ks, vs, pos) == compacted_index(
            m.insert(ks[0], v),
            ks2,
            vs2,
            pos + vs[0].record_size as nat + 4,
        ));
        assert(compacted_index(m2, ks, vs, pos) == compacted_index(
            m2.insert(ks[0], v),
            ks2,
            vs2,
            pos + vs[0].record_size as nat + 4,
        ));
        let n = m.insert(ks[0], v);
        let n2 = m2.insert(ks[0], v);
        if ks2.contains(k) {
            let t = choose|t: int| 0 <= t < ks2.len() && ks2[t] == k;
            assert(ks[t + 1] == k);
            assert(ks.contains(k));
        } else if k == ks[0] {
            assert(ks.contains(k));
            assert(n.contains_key(k) && n[k] == v && n2.contains_key(k) && n2[k] == v);
            lemma_compacted_index_at(n2, n, ks2, vs2, pos + vs[0].record_size as nat + 4, k);
        } else {
            assert forall|t: int| 0 <= t < ks.len() implies ks[t] != k by {
                if t > 0 {
                    assert(ks[t] == ks2[t - 1]);
                }
            }
            assert(!ks.contains(k));
            assert(n.contains_key(k) == m.contains_key(k));
            assert(m.contains_key(k) ==> n[k] == m[k]);
        }
    } else {
        assert(compacted_index(m, ks, vs, pos) == m);
        assert(!ks.contains(k));
    }
}

/// `lemma_compaction_reopens` for one key.
#[verifier::spinoff_prover]
proof fn lemma_compaction_reopens_at(
    before: Map<Seq<u8>, MapValue>,
    s: DbState,
    active: Seq<LogEntry>,
    ks: Seq<Seq<u8>>,
    vs: Seq<MapValue>,
    k: Seq<u8>,
)
    requires
        forall|k: Seq<u8>| #[trigger]
            before.contains_key(k) ==> before[k].file_id != s.active_file_id,
        s.index == apply_all(before, s.active_file_id, 0, active),
        lists_entries_outside(s.index, s.active_file_id, ks, vs),
    ensures
        ({
            let r1 = compacted_index(Map::empty(), ks, vs, 0);
            let r2 = apply_all(r1, s.active_file_id, 0, active);
            let goal = compacted_index(s.index, ks, vs, 0);
            &&& r2.contains_key(k) == goal.contains_key(k)
            &&& r2.contains_key(k) ==> r2[k] == goal[k]
        }),
{
    let a = s.active_file_id;
    let empty = Map::<Seq<u8>, MapValue>::empty();
    let r1 = compacted_index(empty, ks, vs, 0);
    lemma_apply_all_at(r1, before, a, 0, active, k);
    lemma_apply_all_at(before, before, a, 0, active, k);
    lemma_compacted_index_at(empty, s.index, ks, vs, 0, k);
    lemma_compacted_index_at(s.index, empty, ks, vs, 0, k);
    if ks.contains(k) {
        let t = choose|t: int| 0 <= t < ks.len() && ks[t] == k;
        assert(s.index.contains_key(ks[t]));
        assert(s.index[k].file_id != a);
    } else if s.index.contains_key(k) && s.index[k].file_id != a {
        let t = choose|t: int| 0 <= t < ks.len() && #[trigger] ks[t] == k;
        assert(ks.contains(k));
    }
}

/// Reopening a store after compaction gives the index the store holds. Say
/// the store's index is what reading its active file gives, from an index
/// `before` of the earlier log files (none of whose entries lies in the
/// active file), and compaction copied the frames that set each listed key
/// into the first log file. Then reading the first log file from nothing,
/// and then the active file, ends cleanly at exactly the index that
/// `finish_compaction` records.
pub proof fn lemma_compaction_reopens(
    before: Map<Seq<u8>, MapValue>,
    s: DbState,
    active: Seq<LogEntry>,
    ks: Seq<Seq<u8>>,
    vs: Seq<MapValue>,
    copies: Seq<LogEntry>,
)
    requires
        s.active_file_id != 1,
        forall|k: Seq<u8>| #[trigger]
            before.contains_key(k) ==> before[k].file_id != s.active_file_id,
        forall|i: int| 0 <= i < active.len() ==> entry_fits(#[trigger] active[i]),
        s.index == apply_all(before, s.active_file_id, 0, active),
        lists_entries_outside(s.index, s.active_file_id, ks, vs),
        copies.len() == vs.len(),
        forall|i: int| 0 <= i < copies.len() ==> entry_fits(#[trigger] copies[i]),
        forall|i: int|
            0 <= i < copies.len() ==> {
                &&& (#[trigger] copies[i]).op == OperationType::Put
                &&& copies[i].key == ks[i]
                &&& copies[i].key.len() + copies[i].val.len() + 21 == vs[i].record_size
            },
    ensures
        ({
            let first = replay_from(Map::empty(), 1, encode_all(copies), 0);
            &&& first == (
                compacted_index(Map::empty(), ks, vs, 0),
                LoadStop::Clean,
            )
            &&& replay_from(first.0, s.active_file_id, encode_all(active), 0) == (
                compacted_index(s.index, ks, vs, 0),
                LoadStop::Clean,
            )
        }),
{
    let a = s.active_file_id;
    let empty = Map::<Seq<u8>, MapValue>::empty();
    lemma_compaction_reads_back(empty, ks, vs, copies);
    let r1 = compacted_index(empty, ks, vs, 0);
    lemma_replay_written_frames(r1, a, active);
    let r2 = apply_all(r1, a, 0, active);
    let goal = compacted_index(s.index, ks, vs, 0);
    assert forall|k: Seq<u8>| #![trigger r2.contains_key(k)] #![trigger goal.contains_key(k)]
        r2.contains_key(k) == goal.contains_key(k) && (r2.contains_key(k) ==> r2[k]
        == goal[k]) by {
        lemma_compaction_reopens_at(before, s, active, ks, vs, k);
    }
    assert(r2 =~= goal);
}

/// Reading a record that sets a key points the key at that record: at
/// exactly the byte offset and with exactly the length given, in the file
/// given, for every offset and length that fit in a `u32`. A record that
/// removes a key drops it, and no other key changes.
pub proof fn lemma_apply_entry_locates(
    index: Map<Seq<u8>, MapValue>,
    e: LogEntry,
    file_id: u32,
    offset: nat,
    record_size: nat,
    k: Seq<u8>,
)
    requires
        offset <= u32::MAX,
        record_size <= u32::MAX,
    ensures
        ({
            let r = apply_entry(index, e, file_id, offset, record_size);
            &&& e.op == OperationType::Put ==> {
                &&& r.contains_key(e.key)
                &&& r[e.key].offset == offset
                &&& r[e.key].record_size == record_size
                &&& r[e.key].file_id == file_id
            }
            &&& e.op == OperationType::Remove ==> !r.contains_key(e.key)
            &&& k != e.key ==> r.contains_key(k) == index.contains_key(k)
            &&& k != e.key && index.contains_key(k) ==> r[k] == index[k]
        }),
{
}

/// Recording an append: a set key points at the frame just written, at the
/// offset where the active file ended before it, with the frame's length
/// field, in the active file; a removed key is gone; no other key changes;
/// the active file grows by exactly the frame; nothing else changes.
pub proof fn lemma_after_append_locates(s: DbState, p: AppendPlan, k: Seq<u8>)
    requires
        append_fits(s.byte_counter, p.record_size),
    ensures
        ({
            let t = after_append(s, p);
            &&& t.byte_counter == s.byte_counter + p.record_size + 4
            &&& p.op == OperationType::Put ==> {
                &&& t.index.contains_key(p.key)
                &&& t.index[p.key].offset == s.byte_counter
                &&& t.index[p.key].record_size == p.record_size
                &&& t.index[p.key].file_id == s.active_file_id
            }
            &&& p.op == OperationType::Remove ==> !t.index.contains_key(p.key)
            &&& k != p.key ==> t.index.contains_key(k) == s.index.contains_key(k)
            &&& k != p.key && s.index.contains_key(k) ==> t.index[k] == s.index[k]
            &&& t.active_file_id == s.active_file_id
            &&& t.active_file == s.active_file
            &&& t.dir == s.dir
            &&& t.max_bytes == s.max_bytes
            &&& t.max_logs == s.max_logs
        }),
{
}

/// Setting a key with a frame of its record: the key's entry gives the
/// record's length, its 21 header bytes and its key and value.
pub proof fn lemma_after_append_record_size(s: DbState, p: AppendPlan, e: LogEntry)
    requires
        frame_of(p, e),
        entry_fits(e),
        e.op == OperationType::Put,
        append_fits(s.byte_counter, p.record_size),
    ensures
        after_append(s, p).index[e.key].record_size == e.key.len() + e.val.len() + 21,
{
    lemma_after_append_locates(s, p, e.key);
}

/// Applying two runs of records applies the second after the first, its
/// frames starting where the first run's end.
proof fn lemma_apply_all_concat(
    m: Map<Seq<u8>, MapValue>,
    file_id: u32,
    pos: nat,
    a: Seq<LogEntry>,
    b: Seq<LogEntry>,
)
    ensures
        apply_all(m, file_id, pos, a + b) == apply_all(
            apply_all(m, file_id, pos, a),
            file_id,
            pos + encode_all(a).len(),
            b,
        ),
    decreases a.len(),
{
    if a.len() == 0 {
        assert(a + b =~= b);
    } else {
        let e = a[0];
        let size = e.key.len() + e.val.len() + 21;
        let rest = a.subrange(1, a.len() as int);
        assert((a + b)[0] == e);
        assert((a + b).subrange(1, (a + b).len() as int) =~= rest + b);
        lemma_encoded_log_len_field(e.timestamp, e.op, e.key, e.val);
        lemma_apply_all_concat(apply_entry(m, e, file_id, pos, size), file_id, pos + size + 4, rest, b);
    }
}

/// Reading back a log file of written frames, a key set by the frame at
/// byte position `p`, with no later record naming it, points at that frame:
/// offset `p`, the frame's length field, this file. This holds at every
/// position of a file that fits in a `u32`.
pub proof fn lemma_replay_locates(
    base: Map<Seq<u8>, MapValue>,
    file_id: u32,
    entries: Seq<LogEntry>,
    i: int,
)
    requires
        0 <= i < entries.len(),
        forall|j: int| 0 <= j < entries.len() ==> entry_fits(#[trigger] entries[j]),
        encode_all(entries).len() <= u32::MAX,
        entries[i].op == OperationType::Put,
        last_op(entries.subrange(i + 1, entries.len() as int), entries[i].key) is None,
    ensures
        ({
            let r = replay_from(base, file_id, encode_all(entries), 0);
            let k = entries[i].key;
            &&& r.1 == LoadStop::Clean
            &&& r.0.contains_key(k)
            &&& r.0[k].offset == encode_all(entries.subrange(0, i)).len()
            &&& r.0[k].record_size == k.len() + entries[i].val.len() + 21
            &&& r.0[k].file_id == file_id
        }),
{
    let e = entries[i];
    let pre = entries.subrange(0, i);
    let rest = entries.subrange(i + 1, entries.len() as int);
    assert(entries =~= pre.push(e) + rest);
    lemma_replay_written_frames(base, file_id, entries);
    lemma_encode_all_concat(pre.push(e), rest);
    lemma_encode_all_push(pre, e);
    lemma_encoded_log_len_field(e.timestamp, e.op, e.key, e.val);
    lemma_apply_all_concat(base, file_id, 0, pre.push(e), rest);
    lemma_apply_all_push(base, file_id, 0, pre, e);
    let m1 = apply_all(base, file_id, 0, pre.push(e));
    lemma_apply_entry_locates(
        apply_all(base, file_id, 0, pre),
        e,
        file_id,
        encode_all(pre).len(),
        e.key.len() + e.val.len() + 21,
        e.key,
    );
    lemma_apply_all_at(m1, m1, file_id, encode_all(pre.push(e)).len(), rest, e.key);
}

/// The frames of a run, the first one and then the rest.
proof fn lemma_frames_len_first(vs: Seq<MapValue>)
    requires
        vs.len() > 0,
    ensures
        frames_len(vs) == vs[0].record_size + 4 + frames_len(vs.subrange(1, vs.len() as int)),
    decreases vs.len(),
{
    let r = vs.subrange(1, vs.len() as int);
    if vs.len() > 1 {
        let d = vs.drop_last();
        lemma_frames_len_first(d);
        assert(d.subrange(1, d.len() as int) =~= r.drop_last());
        assert(r.last() == vs.last());
        assert(d[0] == vs[0]);
        assert(frames_len(r) == frames_len(r.drop_last()) + r.last().record_size as nat + 4);
        assert(frames_len(vs) == frames_len(d) + vs.last().record_size as nat + 4);
    } else {
        assert(vs.drop_last() =~= Seq::<MapValue>::empty());
        assert(r =~= Seq::<MapValue>::empty());
        assert(frames_len(r) == 0);
        assert(frames_len(vs.drop_last()) == 0);
        assert(vs.last() == vs[0]);
    }
}

/// After compaction the `t`-th listed key points at its copy in the first
/// log file: right after the copies of the keys listed before it, with its
/// own length field, whenever the copies fit in a `u32`.
pub proof fn lemma_compacted_index_locates(
    m: Map<Seq<u8>, MapValue>,
    ks: Seq<Seq<u8>>,
    vs: Seq<MapValue>,
    pos: nat,
    t: int,
)
    requires
        ks.len() == vs.len(),
        forall|a: int, b: int| 0 <= a < b < ks.len() ==> #[trigger] ks[a] != #[trigger] ks[b],
        0 <= t < ks.len(),
        pos + frames_len(vs) <= u32::MAX,
    ensures
        ({
            let r = compacted_index(m, ks, vs, pos);
            &&& r.contains_key(ks[t])
            &&& r[ks[t]].offset == pos + frames_len(vs.subrange(0, t))
            &&& r[ks[t]].record_size == vs[t].record_size
            &&& r[ks[t]].file_id == 1
        }),
    decreases t,
{
    let ks2 = ks.subrange(1, ks.len() as int);
    let vs2 = vs.subrange(1, vs.len() as int);
    let pos2 = pos + vs[0].record_size as nat + 4;
    let v = MapValue { offset: pos as u32, record_size: vs[0].record_size, file_id: 1 };
    lemma_frames_len_first(vs);
    assert(compacted_index(m, ks, vs, pos) == compacted_index(m.insert(ks[0], v), ks2, vs2, pos2));
    assert forall|a: int, b: int| 0 <= a < b < ks2.len() implies #[trigger] ks2[a]
        != #[trigger] ks2[b] by {
        assert(ks2[a] == ks[a + 1] && ks2[b] == ks[b + 1]);
    }
    if t == 0 {
        assert forall|j: int| 0 <= j < ks2.len() implies ks2[j] != ks[0] by {
            assert(ks2[j] == ks[j + 1]);
        }
        lemma_compacted_index_at(m.insert(ks[0], v), m.insert(ks[0], v), ks2, vs2, pos2, ks[0]);
        assert(vs.subrange(0, 0) =~= Seq::<MapValue>::empty());
    } else {
        lemma_compacted_index_locates(m.insert(ks[0], v), ks2, vs2, pos2, t - 1);
        assert(ks2[t - 1] == ks[t]);
        assert(vs2[t - 1] == vs[t]);
        let p = vs.subrange(0, t);
        lemma_frames_len_first(p);
        assert(p.subrange(1, p.len() as int) =~= vs2.subrange(0, t - 1));
    }
}

/// On the first log file a frame that alone passes the byte limit is
/// refused, whatever the file already holds; any other frame is taken, and
/// no frame is refused on a later file.
pub proof fn lemma_too_large_rule(s: DbState, s2: DbState, record_size: u32)
    requires
        s2.active_file_id == s.active_file_id,
        s2.max_bytes == s.max_bytes,
    ensures
        too_large(s, record_size) <==> (s.active_file_id == 1 && record_size + 4 > s.max_bytes),
        too_large(s, record_size) == too_large(s2, record_size),
{
}

/// A record whose CRC does not match is read, and stops the reading as
/// corrupted: it never makes a log file unreadable.
pub proof fn lemma_crc_mismatch_is_readable(
    index: Map<Seq<u8>, MapValue>,
    file_id: u32,
    contents: Seq<u8>,
    pos: nat,
)
    requires
        pos + 4 + frame_len_at(contents, pos) <= contents.len(),
        frame_len_at(contents, pos) >= 4,
        stored_crc(record_at(contents, pos)) != record_crc(record_at(contents, pos)),
    ensures
        replay_safe_from(contents, pos),
        replay_from(index, file_id, contents, pos) == (index, LoadStop::Corrupted),
{
}

/// A whole frame makes a log file unreadable only when its record is too
/// short to hold a CRC, or when its CRC matches and its fields run past its
/// end.
pub proof fn lemma_unreadable_record(contents: Seq<u8>, pos: nat)
    requires
        pos + 4 + frame_len_at(contents, pos) <= contents.len(),
    ensures
        frame_len_at(contents, pos) < 4 ==> !replay_safe_from(contents, pos),
        frame_len_at(contents, pos) >= 4 && stored_crc(record_at(contents, pos)) == record_crc(
            record_at(contents, pos),
        ) && !fields_fit(record_at(contents, pos)) ==> !replay_safe_from(contents, pos),
{
}

/// The frames of a prefix take no more room than all of them.
proof fn lemma_frames_len_prefix(vs: Seq<MapValue>, n: int)
    requires
        0 <= n <= vs.len(),
    ensures
        frames_len(vs.subrange(0, n)) <= frames_len(vs),
    decreases vs.len(),
{
    if n < vs.len() {
        assert(vs.drop_last().subrange(0, n) =~= vs.subrange(0, n));
        lemma_frames_len_prefix(vs.drop_last(), n);
    } else {
        assert(vs.subrange(0, n) =~= vs);
    }
}

/// What a reader gets back of a write: where the active file holds the
/// frames of `entries`, read into the index from `base`, and the store's
/// index and length of the file are what reading it gives, the file with the
/// planned frame appended reads back, cleanly, to exactly the index that the
/// store records after the append, and its length is the store's new count.
/// So each set key points at the frame that was written for it.
pub proof fn lemma_append_reads_back(
    base: Map<Seq<u8>, MapValue>,
    s: DbState,
    p: AppendPlan,
    entries: Seq<LogEntry>,
    e: LogEntry,
)
    requires
        forall|i: int| 0 <= i < entries.len() ==> entry_fits(#[trigger] entries[i]),
        s.index == apply_all(base, s.active_file_id, 0, entries),
        s.byte_counter == encode_all(entries).len(),
        entry_fits(e),
        append_fits(s.byte_counter, p.record_size),
        frame_of(p, e),
    ensures
        replay_from(base, s.active_file_id, encode_all(entries) + p.record, 0) == (
            after_append(s, p).index,
            LoadStop::Clean,
        ),
        after_append(s, p).index == apply_all(base, s.active_file_id, 0, entries.push(e)),
        after_append(s, p).byte_counter == (encode_all(entries) + p.record).len(),
        encode_all(entries) + p.record == encode_all(entries.push(e)),
{
    let es2 = entries.push(e);
    lemma_encode_all_push(entries, e);
    lemma_apply_all_push(base, s.active_file_id, 0, entries, e);
    lemma_encoded_log_len_field(e.timestamp, e.op, e.key, e.val);
    assert forall|i: int| 0 <= i < es2.len() implies entry_fits(#[trigger] es2[i]) by {
        if i < entries.len() {
            assert(es2[i] == entries[i]);
        }
    }
    lemma_replay_written_frames(base, s.active_file_id, es2);
}

/// Plan `p` appends the frame of record `e`: its key and operation, its
/// length field, and its bytes.
pub open spec fn frame_of(p: AppendPlan, e: LogEntry) -> bool {
    &&& p.key == e.key
    &&& p.op == e.op
    &&& p.record_size == record_len_field(e.key.len(), e.val.len())
    &&& p.record == encoded_log(e.timestamp, e.op, e.key, e.val)
}

/// The store after these appends, in order.
pub open spec fn after_appends(s: DbState, ps: Seq<AppendPlan>) -> DbState
    decreases ps.len(),
{
    if ps.len() == 0 {
        s
    } else {
        after_appends(after_append(s, ps[0]), ps.subrange(1, ps.len() as int))
    }
}

/// The frames of two runs of records, one after the other.
proof fn lemma_encode_all_concat(a: Seq<LogEntry>, b: Seq<LogEntry>)
    ensures
        encode_all(a + b) == encode_all(a) + encode_all(b),
    decreases a.len(),
{
    if a.len() == 0 {
        assert(a + b =~= b);
        assert(encode_all(a) + encode_all(b) =~= encode_all(b));
    } else {
        assert((a + b)[0] == a[0]);
        assert((a + b).subrange(1, (a + b).len() as int) =~= a.subrange(1, a.len() as int) + b);
        lemma_encode_all_concat(a.subrange(1, a.len() as int), b);
        assert(encode_all(a + b) =~= encode_all(a) + encode_all(b));
    }
}

/// Reopening after a run of appends gives the index the store holds: where
/// the active file holds the frames of `written`, read into the index from
/// `base`, and the store's index and length of the file are what reading it
/// gives, then after appending the frames of `entries` by plans `ps`, one
/// after another, the file reads back, cleanly, to exactly the store's index,
/// which is the records of both runs applied in order, and its length is the
/// store's count. This holds for every run whose file stays within `u32`.
pub proof fn lemma_appends_read_back(
    base: Map<Seq<u8>, MapValue>,
    s: DbState,
    written: Seq<LogEntry>,
    ps: Seq<AppendPlan>,
    entries: Seq<LogEntry>,
)
    requires
        forall|i: int| 0 <= i < written.len() ==> entry_fits(#[trigger] written[i]),
        forall|i: int| 0 <= i < entries.len() ==> entry_fits(#[trigger] entries[i]),
        s.index == apply_all(base, s.active_file_id, 0, written),
        s.byte_counter == encode_all(written).len(),
        ps.len() == entries.len(),
        forall|i: int| 0 <= i < ps.len() ==> frame_of(#[trigger] ps[i], entries[i]),
        encode_all(written + entries).len() <= u32::MAX,
    ensures
        replay_from(base, s.active_file_id, encode_all(written + entries), 0) == (
            after_appends(s, ps).index,
            LoadStop::Clean,
        ),
        after_appends(s, ps).index == apply_all(base, s.active_file_id, 0, written + entries),
        after_appends(s, ps).byte_counter == encode_all(written + entries).len(),
        after_appends(s, ps).active_file_id == s.active_file_id,
    decreases ps.len(),
{
    if ps.len() == 0 {
        assert(written + entries =~= written);
        lemma_replay_written_frames(base, s.active_file_id, written);
    } else {
        let p = ps[0];
        let e = entries[0];
        let rest_ps = ps.subrange(1, ps.len() as int);
        let rest = entries.subrange(1, entries.len() as int);
        assert(frame_of(ps[0], entries[0]));
        assert(entry_fits(entries[0]));
        assert(written + entries =~= written.push(e) + rest);
        lemma_encode_all_concat(written.push(e), rest);
        lemma_encode_all_push(written, e);
        lemma_encoded_log_len_field(e.timestamp, e.op, e.key, e.val);
        lemma_append_reads_back(base, s, p, written, e);
        let s1 = after_append(s, p);
        assert forall|i: int| 0 <= i < written.push(e).len() implies entry_fits(
            #[trigger] written.push(e)[i],
        ) by {
            if i < written.len() {
                assert(written.push(e)[i] == written[i]);
            }
        }
        assert forall|i: int| 0 <= i < rest.len() implies entry_fits(#[trigger] rest[i]) by {
            assert(rest[i] == entries[i + 1]);
        }
        assert forall|i: int| 0 <= i < rest_ps.len() implies frame_of(
            #[trigger] rest_ps[i],
            rest[i],
        ) by {
            assert(rest_ps[i] == ps[i + 1]);
            assert(rest[i] == entries[i + 1]);
            assert(frame_of(ps[i + 1], entries[i + 1]));
        }
        lemma_appends_read_back(base, s1, written.push(e), rest_ps, rest);
    }
}

impl DB {
    /// The store's internal lists are consistent.
    pub closed spec fn wf(&self) -> bool {
        self.map.wf()
    }

    /// A store on `dir` with no records yet: appends go to log file 1, a
    /// log file holds at most 1 MB, and more than 5 log files are compacted.
    pub fn new(dir: &str) -> (db: DB)
        ensures
            db.wf(),
            db@ == (DbState {
                index: Map::empty(),
                active_file: join_path(dir@, log_file_name(1)),
                active_file_id: 1,
                byte_counter: 0,
                dir: dir@,
                max_bytes: 1048576,
                max_logs: 5,
            }),
    {
        DB {
            map: KeyIndex::new(),
            active_file: format_log_file_path(dir, 1),
            active_file_id: 1,
            byte_counter: 0,
            dir: String::from_str(dir),
            max_bytes: 1024 * 1024,
            max_logs: 5,
        }
    }

    /// Plans writing `value` under `key`, which must be new. The frame is
    /// stamped with `timestamp` (the caller reads the clock).
    pub fn set(&self, key: &[u8], value: &[u8], timestamp: i64) -> (r: Result<
        PendingAppend,
        DBError,
    >)
        requires
            self.wf(),
            !self@.index.contains_key(key@) ==> append_fits(
                self@.byte_counter,
                record_len_field(key@.len(), value@.len()),
            ),
        ensures
            (match r {
                Err(DBError::ValueTooLarge) => true,
                _ => false,
            }) <==> (!self@.index.contains_key(key@) && self@.active_file_id == 1
                && record_len_field(key@.len(), value@.len()) + 4 > self@.max_bytes),
            match r {
                Err(e) => {
                    ||| self@.index.contains_key(key@) && e is KeyAlreadyExists
                    ||| !self@.index.contains_key(key@) && too_large(
                        self@,
                        record_len_field(key@.len(), value@.len()),
                    ) && e is ValueTooLarge
                },
                Ok(p) => {
                    &&& !self@.index.contains_key(key@)
                    &&& !too_large(self@, record_len_field(key@.len(), value@.len()))
                    &&& plans_append(
                        self@,
                        p@,
                        key@,
                        OperationType::Put,
                        record_len_field(key@.len(), value@.len()),
                    )
                    &&& p@.record == encoded_log(timestamp, OperationType::Put, key@, value@)
                },
            },
    {
        if self.map.contains(key) {
            return Err(DBError::KeyAlreadyExists);
        }
        let serialized = BinaryLog::set(key, value, timestamp);
        proof {
            lemma_encoded_log_len_field(timestamp, OperationType::Put, key@, value@);
        }
        self.plan_append(key, OperationType::Put, serialized)
    }

    /// Plans removing `key`, which must be live. The frame is stamped with
    /// `timestamp` (the caller reads the clock).
    pub fn remove(&self, key: &[u8], timestamp: i64) -> (r: Result<PendingAppend, DBError>)
        requires
            self.wf(),
            self@.index.contains_key(key@) ==> append_fits(
                self@.byte_counter,
                record_len_field(key@.len(), 0),
            ),
        ensures
            (match r {
                Err(DBError::ValueTooLarge) => true,
                _ => false,
            }) <==> (self@.index.contains_key(key@) && self@.active_file_id == 1
                && record_len_field(key@.len(), 0) + 4 > self@.max_bytes),
            match r {
                Err(e) => {
                    ||| !self@.index.contains_key(key@) && e is KeyNotFound
                    ||| self@.index.contains_key(key@) && too_large(
                        self@,
                        record_len_field(key@.len(), 0),
                    ) && e is ValueTooLarge
                },
                Ok(p) => {
                    &&& self@.index.contains_key(key@)
                    &&& !too_large(self@, record_len_field(key@.len(), 0))
                    &&& plans_append(
                        self@,
                        p@,
                        key@,
                        OperationType::Remove,
                        record_len_field(key@.len(), 0),
                    )
                    &&& p@.record == encoded_log(
                        timestamp,
                        OperationType::Remove,
                        key@,
                        Seq::empty(),
                    )
                },
            },
    {
        if !self.map.contains(key) {
            return Err(DBError::KeyNotFound);
        }
        let serialized = BinaryLog::remove(key, timestamp);
        proof {
            lemma_encoded_log_len_field(timestamp, OperationType::Remove, key@, Seq::empty());
        }
        self.plan_append(key, OperationType::Remove, serialized)
    }

    /// Reads the frame's length field, sizes the append, and refuses a first
    /// value that no log file can take.
    fn plan_append(&self, key: &[u8], op: OperationType, serialized: Vec<u8>) -> (r: Result<
        PendingAppend,
        DBError,
    >)
        requires
            serialized@.len() >= 4,
            append_fits(self@.byte_counter, crate::codec::le_u32(serialized@.subrange(0, 4))),
        ensures
            ({
                let size = crate::codec::le_u32(serialized@.subrange(0, 4));
                match r {
                    Err(e) => too_large(self@, size) && e is ValueTooLarge,
                    Ok(p) => !too_large(self@, size) && plans_append(self@, p@, key@, op, size)
                        && p@.record == serialized@,
                }
            }),
    {
        let num = read_u32_le(serialized.as_slice(), 0);
        let total_len = num + 4;
        let append_log_total = self.byte_counter + total_len;
        let exceeded = log_threshold_exceed(self.max_bytes, append_log_total);
        if self.active_file_id == 1 && total_len > self.max_bytes {
            return Err(DBError::ValueTooLarge);
        }
        Ok(
            PendingAppend {
                key: slice_to_vec(key),
                op,
                record: serialized,
                record_size: num,
                total: append_log_total,
                rotate: exceeded,
            },
        )
    }

    /// Records in the index an append that was written at the end of the
    /// active file: a set key now points at its new frame, which begins
    /// where the file ended, a removed key is gone, and the file's length
    /// grows by the frame's.
    pub fn finish_append(&mut self, pending: PendingAppend)
        requires
            old(self).wf(),
            append_fits(old(self)@.byte_counter, pending@.record_size),
        ensures
            final(self).wf(),
            final(self)@ == after_append(old(self)@, pending@),
            final(self)@.byte_counter == old(self)@.byte_counter + pending@.record_size + 4,
            pending@.op == OperationType::Put ==> {
                &&& final(self)@.index.contains_key(pending@.key)
                &&& final(self)@.index[pending@.key].offset == old(self)@.byte_counter
                &&& final(self)@.index[pending@.key].record_size == pending@.record_size
                &&& final(self)@.index[pending@.key].file_id == old(self)@.active_file_id
            },
            pending@.op == OperationType::Remove ==> !final(self)@.index.contains_key(pending@.key),
    {
        match pending.op {
            OperationType::Put => {
                let val = MapValue {
                    offset: self.byte_counter,
                    record_size: pending.record_size,
                    file_id: self.active_file_id,
                };
                self.map.insert(pending.key.as_slice(), val);
            },
            OperationType::Remove => {
                self.map.remove(pending.key.as_slice());
            },
        }
        self.byte_counter = self.byte_counter + pending.record_size + 4;
    }

    /// Starts the next log file: appends go to it from now on, and it is empty.
    pub fn set_new_active_file(&mut self)
        requires
            old(self).wf(),
            old(self)@.active_file_id < u32::MAX,
        ensures
            final(self).wf(),
            final(self)@ == (DbState {
                active_file_id: (old(self)@.active_file_id + 1) as u32,
                active_file: join_path(
                    old(self)@.dir,
                    log_file_name((old(self)@.active_file_id + 1) as u32),
                ),
                byte_counter: 0,
                ..old(self)@
            }),
    {
        self.active_file_id = self.active_file_id + 1;
        self.active_file = format_log_file_path(self.dir.as_str(), self.active_file_id);
        self.byte_counter = 0;
    }

    /// Whether `log_file_count` log files are more than the store keeps before compacting.
    pub fn check_compaction(&self, log_file_count: usize) -> (compact: bool)
        ensures
            compact == (log_file_count > self@.max_logs),
    {
        log_file_count > self.max_logs as usize
    }

    /// What compaction copies: the location of every live key whose record
    /// lies outside the active file, each once, into the first log file.
    /// With the first log file active there is nothing to compact into it:
    /// `LogCountNotEnough`.
    pub fn compact_log(&self) -> (r: Result<CompactionPlan, DBError>)
        requires
            self.wf(),
        ensures
            match r {
                Err(e) => self@.active_file_id <= 1 && e is LogCountNotEnough,
                Ok(plan) => {
                    &&& self@.active_file_id > 1
                    &&& lists_entries_outside(
                        self@.index,
                        self@.active_file_id,
                        plan@.keys,
                        plan@.sources,
                    )
                    &&& plan@.target_file_id == 1
                },
            },
    {
        if self.active_file_id <= 1 {
            return Err(DBError::LogCountNotEnough);
        }
        let (keys, sources) = self.map.entries_outside(self.active_file_id);
        Ok(CompactionPlan { sources, target_file_id: 1, keys })
    }

    /// Records in the index a compaction that was carried out: each listed
    /// key now points at the copy of its frame in the first log file, the
    /// copies lying one after another from its start.
    pub fn finish_compaction(&mut self, plan: CompactionPlan)
        requires
            old(self).wf(),
            plan@.keys.len() == plan@.sources.len(),
            frames_len(plan@.sources) <= u32::MAX,
        ensures
            final(self).wf(),
            final(self)@ == (DbState {
                index: compacted_index(old(self)@.index, plan@.keys, plan@.sources, 0),
                ..old(self)@
            }),
    {
        let ghost ks = plan@.keys;
        let ghost vs = plan@.sources;
        let mut pos: u32 = 0;
        let mut i: usize = 0;
        proof {
            assert(ks.subrange(0, ks.len() as int) =~= ks);
            assert(vs.subrange(0, vs.len() as int) =~= vs);
            assert(vs.subrange(0, 0) =~= Seq::<MapValue>::empty());
        }
        while i < plan.sources.len()
            invariant
                self.wf(),
                ks == plan@.keys,
                vs == plan@.sources,
                ks.len() == vs.len(),
                i <= vs.len(),
                pos == frames_len(vs.subrange(0, i as int)),
                frames_len(vs) <= u32::MAX,
                compacted_index(old(self)@.index, ks, vs, 0) == compacted_index(
                    self@.index,
                    ks.subrange(i as int, ks.len() as int),
                    vs.subrange(i as int, vs.len() as int),
                    pos as nat,
                ),
                self@ == (DbState { index: self@.index, ..old(self)@ }),
            decreases vs.len() - i,
        {
            let v = plan.sources[i];
            proof {
                lemma_frames_len_prefix(vs, i as int + 1);
                assert(vs.subrange(0, i as int + 1).drop_last() =~= vs.subrange(0, i as int));
                assert(ks.subrange(i as int, ks.len() as int).subrange(1, ks.len() - i)
                    =~= ks.subrange(i + 1, ks.len() as int));
                assert(vs.subrange(i as int, vs.len() as int).subrange(1, vs.len() - i)
                    =~= vs.subrange(i + 1, vs.len() as int));
                assert(plan@.keys[i as int] == plan.keys@[i as int]@);
            }
            self.map.insert(
                plan.keys[i].as_slice(),
                MapValue { offset: pos, record_size: v.record_size, file_id: 1 },
            );
            pos = pos + v.record_size + 4;
            i = i + 1;
        }
    }

    /// Where the latest record of `key` lies: the record after the frame's
    /// length field, in the key's log file.
    pub fn locate(&self, key: &[u8]) -> (r: Result<RecordLocation, DBError>)
        requires
            self.wf(),
        ensures
            match r {
                Err(e) => !self@.index.contains_key(key@) && e is KeyNotFound,
                Ok(loc) => {
                    let v = self@.index[key@];
                    &&& self@.index.contains_key(key@)
                    &&& loc.path@ == join_path(self@.dir, log_file_name(v.file_id))
                    &&& loc.position == v.offset + 4
                    &&& loc.len == v.record_size
                },
            },
    {
        match self.map.get(key) {
            Some(value) => {
                let path = format_log_file_path(self.dir.as_str(), value.file_id);
                Ok(
                    RecordLocation {
                        path,
                        position: value.offset as u64 + 4,
                        len: value.record_size as usize,
                    },
                )
            },
            None => Err(DBError::KeyNotFound),
        }
    }

    /// Every live key, each once.
    pub fn list(&self) -> (keys: Vec<Vec<u8>>)
        requires
            self.wf(),
        ensures
            forall|i: int| 0 <= i < keys@.len() ==> #[trigger] self@.index.contains_key(keys@[i]@),
            forall|i: int, j: int|
                0 <= i < j < keys@.len() ==> #[trigger] keys@[i]@ != #[trigger] keys@[j]@,
            forall|k: Seq<u8>|
                #[trigger] self@.index.contains_key(k) ==> exists|i: int|
                    0 <= i < keys@.len() && #[trigger] keys@[i]@ == k,
    {
        self.map.keys()
    }

    /// The store with log files of at most `bytes` bytes.
    pub fn set_max_bytes(self, bytes: u32) -> (db: DB)
        requires
            self.wf(),
        ensures
            db.wf(),
            db@ == (DbState { max_bytes: bytes, ..self@ }),
    {
        let mut db = self;
        db.max_bytes = bytes;
        db
    }

    /// The store compacting beyond `num` log files; a `num` below 3 is ignored.
    pub fn set_max_logs(self, num: u32) -> (db: DB)
        requires
            self.wf(),
        ensures
            db.wf(),
            db@ == (if num < 3 {
                self@
            } else {
                DbState { max_logs: num, ..self@ }
            }),
    {
        if num < 3 {
            self
        } else {
            let mut db = self;
            db.max_logs = num;
            db
        }
    }

    /// Reads a log file into the store: the file becomes the active one,
    /// its size the byte counter, and each of its records, in order, is
    /// applied to the index at its offset. Reading stops without error where
    /// fewer than four bytes are left; it fails with an I/O error where a
    /// frame runs past the end, and with `CorruptedValue` at a record that
    /// fails its CRC or names no operation.
    pub fn load_log_file(&mut self, path: &str, file_id: u32, contents: &[u8]) -> (r: Result<
        (),
        DBError,
    >)
        requires
            old(self).wf(),
            contents@.len() <= u32::MAX,
            replay_safe_from(contents@, 0),
        ensures
            final(self).wf(),
            loads_log_file(old(self)@, final(self)@, path@, file_id, contents@, r),
    {
        let ghost start = self.map@;
        self.active_file = String::from_str(path);
        self.byte_counter = contents.len() as u32;
        self.active_file_id = file_id;
        let mut pos: usize = 0;
        while contents.len() - pos >= 4
            invariant
                self.wf(),
                start == old(self).map@,
                pos <= contents@.len(),
                contents@.len() <= u32::MAX,
                replay_from(start, file_id, contents@, 0) == replay_from(
                    self.map@,
                    file_id,
                    contents@,
                    pos as nat,
                ),
                replay_safe_from(contents@, pos as nat),
                self.active_file@ == path@,
                self.active_file_id == file_id,
                self.byte_counter == contents@.len() as u32,
                self.dir == old(self).dir,
                self.max_bytes == old(self).max_bytes,
                self.max_logs == old(self).max_logs,
            decreases contents@.len() - pos,
        {
            let record_len = read_u32_le(contents, pos);
            assert(record_len == frame_len_at(contents@, pos as nat));
            if record_len as usize > contents.len() - pos - 4 {
                assert(replay_from(self.map@, file_id, contents@, pos as nat) == (
                    self.map@,
                    LoadStop::Truncated,
                ));
                return Err(DBError::IoError(unexpected_eof_error()));
            }
            let end = pos + 4 + record_len as usize;
            let record = slice_subrange(contents, pos + 4, end);
            assert(record@ == record_at(contents@, pos as nat));
            let log = match BinaryLog::deserialize(record) {
                Ok(log) => log,
                Err(e) => {
                    assert(replay_from(self.map@, file_id, contents@, pos as nat) == (
                        self.map@,
                        LoadStop::Corrupted,
                    ));
                    let err = DBError::from(e);
                    assert(err is CorruptedValue);
                    return Err(err);
                },
            };
            match log.get_op_type() {
                OperationType::Put => {
                    let key = log.get_key();
                    self.map.insert(
                        key.as_slice(),
                        MapValue { offset: pos as u32, record_size: record_len, file_id },
                    );
                },
                OperationType::Remove => {
                    let key = log.get_key();
                    self.map.remove(key.as_slice());
                },
            }
            pos = end;
        }
        Ok(())
    }

    /// Loads a log file as `load_log_file` does, or gives `None` and leaves
    /// the store as it was where `load_log_file` cannot read the file: where a
    /// record it would read is shorter than its CRC, or its CRC matches and
    /// its fields run past its end.
    pub fn try_load_log_file(&mut self, path: &str, file_id: u32, contents: &[u8]) -> (r: Option<
        Result<(), DBError>,
    >)
        requires
            old(self).wf(),
            contents@.len() <= u32::MAX,
        ensures
            final(self).wf(),
            r is None <==> !replay_safe_from(contents@, 0),
            r is None ==> final(self)@ == old(self)@,
            r matches Some(res) ==> loads_log_file(
                old(self)@,
                final(self)@,
                path@,
                file_id,
                contents@,
                res,
            ),
    {
        if !replay_safe(contents) {
            return None;
        }
        Some(self.load_log_file(path, file_id, contents))
    }

    /// The path of the active log file.
    pub fn active_file(&self) -> (p: &str)
        ensures
            p@ == self@.active_file,
    {
        self.active_file.as_str()
    }

    /// The number of the active log file.
    pub fn active_file_id(&self) -> (id: u32)
        ensures
            id == self@.active_file_id,
    {
        self.active_file_id
    }

    /// The length of the active log file.
    pub fn byte_counter(&self) -> (n: u32)
        ensures
            n == self@.byte_counter,
    {
        self.byte_counter
    }

    /// The store's directory.
    pub fn dir(&self) -> (d: &str)
        ensures
            d@ == self@.dir,
    {
        self.dir.as_str()
    }
}

/// Whether `load_log_file` can read these contents.
fn replay_safe(contents: &[u8]) -> (safe: bool)
    requires
        contents@.len() <= u32::MAX,
    ensures
        safe == replay_safe_from(contents@, 0),
{
    let mut pos: usize = 0;
    while contents.len() - pos >= 4
        invariant
            pos <= contents@.len(),
            contents@.len() <= u32::MAX,
            replay_safe_from(contents@, 0) == replay_safe_from(contents@, pos as nat),
        decreases contents@.len() - pos,
    {
        let record_len = read_u32_le(contents, pos);
        if record_len as usize > contents.len() - pos - 4 {
            return true;
        }
        let end = pos + 4 + record_len as usize;
        let record = slice_subrange(contents, pos + 4, end);
        match BinaryLog::try_deserialize(record) {
            None => {
                return false;
            },
            Some(Err(_)) => {
                return true;
            },
            Some(Ok(_)) => {},
        }
        pos = end;
    }
    true
}

} // verus!
