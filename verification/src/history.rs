//! Timestamped edit history with sequence-based time travel and compressed snapshots.

use vstd::prelude::*;
use vstd::utf8::{encode_utf8, decode_utf8, valid_utf8};
use std::collections::VecDeque;
use crate::edit::{Range, TextEdit, insert_chars, remove_chars, replace_chars};
use crate::text::{decimal, push_decimal, push_char, str_eq};

verus! {

/// A point in time (UTC): seconds since the Unix epoch and nanoseconds within the second.
#[derive(Debug, Clone, Copy, PartialEq, Eq, Hash, Structural)]
pub struct Timestamp {
    pub secs: i64,
    pub nanos: u32,
}

impl Timestamp {
    /// Whether `self` is not later than `other`.
    pub open spec fn spec_not_after(self, other: Timestamp) -> bool {
        self.secs < other.secs || (self.secs == other.secs && self.nanos <= other.nanos)
    }

    /// Whether `self` is not later than `other`.
    pub fn not_after(&self, other: &Timestamp) -> (b: bool)
        ensures
            b == self.spec_not_after(*other),
    {
        self.secs < other.secs || (self.secs == other.secs && self.nanos <= other.nanos)
    }
}

/// `chrono::DateTime::from_timestamp` read back with `timestamp` and
/// `timestamp_subsec_nanos`. Its documentation guarantees the round trip, so when it
/// gives a time (the seconds are in chrono's range and the nanoseconds valid), that time
/// reads back as `secs` and `nanos`. Its source gives a time for every second from the
/// epoch up to 8 * 10^12 (about the year 255000, within chrono's last year 262143) with
/// nanoseconds below a second: the day count fits `NaiveDate` and the second of the day
/// and the nanoseconds fit `NaiveTime`.
#[verifier::external_body]
fn utc_from_timestamp(secs: i64, nanos: u32) -> (r: Option<Timestamp>)
    ensures
        r is Some ==> r == Some(Timestamp { secs, nanos }),
        0 <= secs <= 8_000_000_000_000 && nanos < 1_000_000_000 ==> r is Some,
{
    chrono::DateTime::from_timestamp(secs, nanos).map(|dt| Timestamp { secs: dt.timestamp(), nanos: dt.timestamp_subsec_nanos() })
}

/// `SystemTime::now().duration_since(UNIX_EPOCH)` in nanoseconds, or none when the clock
/// reads a time before the epoch. The value depends on the clock; nothing is promised
/// of it.
#[verifier::external_body]
fn system_nanos() -> (n: Option<u128>) {
    match std::time::SystemTime::now().duration_since(std::time::UNIX_EPOCH) {
        Ok(d) => Some(d.as_nanos()),
        Err(_) => None,
    }
}

/// The seconds and nanoseconds of a clock reading of `n` nanoseconds since the epoch.
pub open spec fn clock_stamp(n: nat) -> (int, int) {
    ((n / 1_000_000_000) as int, (n % 1_000_000_000) as int)
}

/// A clock reading splits into whole seconds and the nanoseconds left over: the seconds
/// times a billion plus the nanoseconds give the reading back, and the nanoseconds stay
/// below a second.
pub proof fn law_clock_stamp_splits_reading(n: nat)
    ensures
        clock_stamp(n).0 * 1_000_000_000 + clock_stamp(n).1 == n,
        0 <= clock_stamp(n).1 < 1_000_000_000,
        clock_stamp(n).0 >= 0,
{
}

/// The timestamp of a clock reading in nanoseconds since the epoch: its seconds and
/// the nanoseconds left over, as chrono reads them back. No reading (a clock before the
/// epoch), or one out of chrono's range, gives the epoch itself.
pub fn stamp_of_reading(reading: Option<u128>) -> (t: Timestamp)
    ensures
        t.secs >= 0,
        t.nanos < 1_000_000_000,
        reading is None ==> t == (Timestamp { secs: 0, nanos: 0 }),
        reading is Some && reading->0 / 1_000_000_000 <= 8_000_000_000_000 ==>
            t.secs as int * 1_000_000_000 + t.nanos as int == reading->0
            && (t.secs as int, t.nanos as int) == clock_stamp(reading->0 as nat),
{
    match reading {
        Some(n) => {
            let whole = n / 1_000_000_000;
            let sub = n % 1_000_000_000;
            if whole <= 0x7fff_ffff_ffff_ffffu128 {
                match utc_from_timestamp(whole as i64, sub as u32) {
                    Some(t) => t,
                    None => Timestamp { secs: 0, nanos: 0 },
                }
            } else {
                Timestamp { secs: 0, nanos: 0 }
            }
        },
        None => Timestamp { secs: 0, nanos: 0 },
    }
}

/// The current UTC time, read from the system clock through chrono: seconds since the
/// epoch and nanoseconds within the second. A clock before the epoch, or out of
/// chrono's range, gives the epoch itself.
fn utc_now() -> (t: Timestamp)
    ensures
        t.secs >= 0,
        t.nanos < 1_000_000_000,
{
    stamp_of_reading(system_nanos())
}

/// What `zstd::encode_all` gives for `data` at compression level `level`: the zstd
/// frame, or nothing when it fails.
pub uninterp spec fn zstd_encoded(data: Seq<u8>, level: i32) -> Option<Seq<u8>>;

/// What `zstd::decode_all` gives for `data`: the decompressed bytes, or nothing when
/// decoding fails.
pub uninterp spec fn zstd_decoded(data: Seq<u8>) -> Option<Seq<u8>>;

/// `zstd::encode_all` on the bytes `data`, its error dropped. The result, frame or
/// failure, is the one named by `zstd_encoded`: it depends on `data` and `level` alone.
#[verifier::external_body]
fn zstd_encode(data: &[u8], level: i32) -> (r: Option<Vec<u8>>)
    ensures
        r matches Some(v) ==> zstd_encoded(data@, level) == Some(v@),
        r is None ==> zstd_encoded(data@, level) is None,
{
    zstd::encode_all(data, level).ok()
}

/// `zstd::decode_all` on the bytes `data`, its error turned into its message. The result
/// is the one named by `zstd_decoded`; a frame that `encode_all` produced decodes back to
/// the data it was made from.
#[verifier::external_body]
fn zstd_decode(data: &[u8]) -> (r: Result<Vec<u8>, String>)
    ensures
        r matches Ok(v) ==> zstd_decoded(data@) == Some(v@),
        r matches Err(_) ==> zstd_decoded(data@) == None::<Seq<u8>>,
        r matches Err(_) ==> forall|x: Seq<u8>, level: i32| #[trigger] zstd_encoded(x, level) != Some(data@),
        r matches Ok(v) ==> forall|x: Seq<u8>, level: i32| #[trigger] zstd_encoded(x, level) == Some(data@) ==> v@ == x,
{
    zstd::decode_all(data).map_err(|e| e.to_string())
}

/// `String::from_utf8`: succeeds exactly on valid UTF-8, with the decoded characters.
#[verifier::external_body]
fn string_from_utf8(bytes: Vec<u8>) -> (r: Option<String>)
    ensures
        r matches Some(s) ==> valid_utf8(bytes@) && s@ == decode_utf8(bytes@),
        r is None ==> !valid_utf8(bytes@),
{
    String::from_utf8(bytes).ok()
}

/// The text of a version identifier: `v`, the sequence number, `-`, then a number.
pub open spec fn version_id_text(seq: nat, n: nat) -> Seq<char> {
    seq!['v'] + decimal(seq) + seq!['-'] + decimal(n)
}

/// A version: identifier, time of creation and sequence number.
#[derive(Debug, PartialEq, Eq, Hash)]
pub struct Version {
    pub id: String,
    pub timestamp: Timestamp,
    pub sequence: u64,
}

impl View for Version {
    type V = (Seq<char>, Timestamp, u64);

    open spec fn view(&self) -> (Seq<char>, Timestamp, u64) {
        (self.id@, self.timestamp, self.sequence)
    }
}

impl Clone for Version {
    fn clone(&self) -> (v: Self)
        ensures
            v@ == self@,
    {
        Version { id: self.id.clone(), timestamp: self.timestamp, sequence: self.sequence }
    }
}

impl Version {
    /// A version with sequence number `seq`, stamped with the current time; its
    /// identifier is `v<seq>-<nanoseconds since the epoch>` (0 nanoseconds when the clock
    /// reads a time before the epoch).
    pub fn new(seq: u64) -> (v: Self)
        ensures
            v.sequence == seq,
            exists|n: nat| v.id@ == version_id_text(seq as nat, n),
    {
        let nanos = match system_nanos() {
            Some(n) => n,
            None => 0,
        };
        let mut id = String::new();
        push_char(&mut id, 'v');
        push_decimal(&mut id, seq as u128);
        push_char(&mut id, '-');
        push_decimal(&mut id, nanos);
        assert(id@ =~= version_id_text(seq as nat, nanos as nat));
        Version { id, timestamp: utc_now(), sequence: seq }
    }
}

/// Kind of edit operation.
#[derive(Debug, Clone, Copy, PartialEq, Eq, Structural)]
pub enum EditType {
    Insert,
    Delete,
    Replace,
    Undo,
    Redo,
}

impl EditType {
    /// The lower-case name of the kind.
    pub open spec fn spec_name(self) -> Seq<char> {
        match self {
            EditType::Insert => seq!['i', 'n', 's', 'e', 'r', 't'],
            EditType::Delete => seq!['d', 'e', 'l', 'e', 't', 'e'],
            EditType::Replace => seq!['r', 'e', 'p', 'l', 'a', 'c', 'e'],
            EditType::Undo => seq!['u', 'n', 'd', 'o'],
            EditType::Redo => seq!['r', 'e', 'd', 'o'],
        }
    }

    /// The lower-case name of the kind.
    pub fn name(&self) -> (s: String)
        ensures
            s@ == self.spec_name(),
    {
        let mut s = String::new();
        match self {
            EditType::Insert => {
                push_char(&mut s, 'i'); push_char(&mut s, 'n'); push_char(&mut s, 's');
                push_char(&mut s, 'e'); push_char(&mut s, 'r'); push_char(&mut s, 't');
            },
            EditType::Delete => {
                push_char(&mut s, 'd'); push_char(&mut s, 'e'); push_char(&mut s, 'l');
                push_char(&mut s, 'e'); push_char(&mut s, 't'); push_char(&mut s, 'e');
            },
            EditType::Replace => {
                push_char(&mut s, 'r'); push_char(&mut s, 'e'); push_char(&mut s, 'p');
                push_char(&mut s, 'l'); push_char(&mut s, 'a'); push_char(&mut s, 'c');
                push_char(&mut s, 'e');
            },
            EditType::Undo => {
                push_char(&mut s, 'u'); push_char(&mut s, 'n'); push_char(&mut s, 'd');
                push_char(&mut s, 'o');
            },
            EditType::Redo => {
                push_char(&mut s, 'r'); push_char(&mut s, 'e'); push_char(&mut s, 'd');
                push_char(&mut s, 'o');
            },
        }
        assert(s@ =~= self.spec_name());
        s
    }
}

/// The text of a record identifier: `rec-` then its serial number.
pub open spec fn record_id_text(serial: nat) -> Seq<char> {
    seq!['r', 'e', 'c', '-'] + decimal(serial)
}

/// One recorded edit.
#[derive(Debug)]
pub struct EditRecord {
    pub id: String,
    pub edit_type: EditType,
    pub range: Range,
    pub inserted_text: String,
    pub deleted_text: String,
    pub timestamp: Timestamp,
    pub version_before: Version,
    pub version_after: Version,
}

impl Clone for EditRecord {
    fn clone(&self) -> (r: Self)
        ensures
            r.id@ == self.id@,
            r.edit_type == self.edit_type,
            r.range == self.range,
            r.inserted_text@ == self.inserted_text@,
            r.deleted_text@ == self.deleted_text@,
            r.timestamp == self.timestamp,
            r.version_before@ == self.version_before@,
            r.version_after@ == self.version_after@,
    {
        EditRecord {
            id: self.id.clone(),
            edit_type: self.edit_type,
            range: self.range,
            inserted_text: self.inserted_text.clone(),
            deleted_text: self.deleted_text.clone(),
            timestamp: self.timestamp,
            version_before: self.version_before.clone(),
            version_after: self.version_after.clone(),
        }
    }
}

impl EditRecord {
    /// A record of an edit, stamped with the current time and identified as
    /// `rec-<serial>`.
    pub fn from_parts(
        et: EditType,
        range: Range,
        inserted: &str,
        deleted: &str,
        before: Version,
        after: Version,
        serial: u64,
    ) -> (r: Self)
        ensures
            r.id@ == record_id_text(serial as nat),
            r.edit_type == et,
            r.range == range,
            r.inserted_text@ == inserted@,
            r.deleted_text@ == deleted@,
            r.version_before == before,
            r.version_after == after,
    {
        let mut id = String::new();
        push_char(&mut id, 'r');
        push_char(&mut id, 'e');
        push_char(&mut id, 'c');
        push_char(&mut id, '-');
        push_decimal(&mut id, serial as u128);
        assert(id@ =~= record_id_text(serial as nat));
        EditRecord {
            id,
            edit_type: et,
            range,
            inserted_text: inserted.to_owned(),
            deleted_text: deleted.to_owned(),
            timestamp: utc_now(),
            version_before: before,
            version_after: after,
        }
    }
}

/// Errors of time travel.
#[derive(Debug, Clone, PartialEq, Eq)]
pub enum HistoryError {
    /// A snapshot could not be decompressed; the message says why.
    Decompress(String),
}

/// The text after replaying record `r` on `t`: insertions, deletions and replacements are
/// applied again; undo and redo records change nothing.
pub open spec fn apply_record(t: Seq<char>, r: EditRecord) -> Seq<char> {
    match r.edit_type {
        EditType::Insert => insert_chars(t, r.range.start as int, r.inserted_text@),
        EditType::Delete => remove_chars(t, r.range.start as int, r.range.spec_len() as int),
        EditType::Replace => replace_chars(t, r.range.start as int, r.range.spec_len() as int, r.inserted_text@),
        _ => t,
    }
}

/// Replays `recs` in order on `t`: records with a sequence number at most `after` are
/// skipped, and replay stops at the first record with a sequence number above `upto`.
pub open spec fn replay_by_sequence(t: Seq<char>, recs: Seq<EditRecord>, after: u64, upto: u64) -> Seq<char>
    decreases recs.len(),
{
    if recs.len() == 0 {
        t
    } else if recs[0].version_after.sequence <= after {
        replay_by_sequence(t, recs.drop_first(), after, upto)
    } else if recs[0].version_after.sequence > upto {
        t
    } else {
        replay_by_sequence(apply_record(t, recs[0]), recs.drop_first(), after, upto)
    }
}

/// Replays `recs` in order on `t`: records with a sequence number at most `after` are
/// skipped, and replay stops at the first record stamped later than `ts`.
pub open spec fn replay_by_time(t: Seq<char>, recs: Seq<EditRecord>, after: u64, ts: Timestamp) -> Seq<char>
    decreases recs.len(),
{
    if recs.len() == 0 {
        t
    } else if recs[0].version_after.sequence <= after {
        replay_by_time(t, recs.drop_first(), after, ts)
    } else if !recs[0].timestamp.spec_not_after(ts) {
        t
    } else {
        replay_by_time(apply_record(t, recs[0]), recs.drop_first(), after, ts)
    }
}

/// `s` without its oldest elements beyond the last `limit`.
pub open spec fn keep_last<A>(s: Seq<A>, limit: int) -> Seq<A> {
    if s.len() > limit { s.skip(s.len() - limit) } else { s }
}

/// Index of the last element of `s` satisfying `p`, if any.
pub open spec fn last_index_where<A>(s: Seq<A>, p: spec_fn(A) -> bool) -> Option<int>
    decreases s.len(),
{
    if s.len() == 0 {
        None
    } else if p(s.last()) {
        Some(s.len() - 1)
    } else {
        last_index_where(s.drop_last(), p)
    }
}

/// Index of the first element of `s` satisfying `p`, if any.
pub open spec fn first_index_where<A>(s: Seq<A>, p: spec_fn(A) -> bool) -> Option<int>
    decreases s.len(),
{
    if s.len() == 0 {
        None
    } else if p(s[0]) {
        Some(0)
    } else {
        match first_index_where(s.drop_first(), p) {
            Some(i) => Some(i + 1),
            None => None,
        }
    }
}

/// Edit history: the recorded edits, compressed snapshots of the text, and the current
/// version.
pub struct HistoryTimeline {
    records: VecDeque<EditRecord>,
    snapshots: VecDeque<(Version, Vec<u8>)>,
    current_version: Version,
    next_sequence: u64,
    max_records: usize,
    snapshot_interval: usize,
    edits_since_snapshot: usize,
    next_record_serial: u64,
    snapshot_texts: Ghost<Seq<Seq<char>>>,
}

/// The snapshot bytes are the zstd frames (level 3) of the UTF-8 bytes of `texts`.
pub open spec fn frames_of(snaps: Seq<(Version, Vec<u8>)>, texts: Seq<Seq<char>>) -> bool {
    &&& snaps.len() == texts.len()
    &&& forall|i: int| 0 <= i < snaps.len() ==> zstd_encoded(encode_utf8(texts[i]), 3) == Some((#[trigger] snaps[i]).1@)
}

/// What taking a snapshot of `text` at version `cur` does to the snapshots `snaps` and
/// their texts `texts` with at most `lim` kept: when compression of the text succeeds
/// the snapshot is appended, otherwise nothing is added; then the oldest beyond `lim`
/// are dropped.
pub open spec fn snapshot_step(
    snaps: Seq<(Version, Vec<u8>)>,
    texts: Seq<Seq<char>>,
    new_snaps: Seq<(Version, Vec<u8>)>,
    new_texts: Seq<Seq<char>>,
    lim: int,
    text: Seq<char>,
    cur: Version,
) -> bool {
    if zstd_encoded(encode_utf8(text), 3) is Some {
        &&& new_texts == keep_last(texts.push(text), lim)
        &&& new_snaps.drop_last() == keep_last(snaps, lim - 1)
        &&& new_snaps.len() > 0
        &&& new_snaps.last().0@ == cur@
    } else {
        new_texts == keep_last(texts, lim) && new_snaps == keep_last(snaps, lim)
    }
}

/// The elements of `s` satisfying `p`, in order.
pub open spec fn keep_where<A>(s: Seq<A>, p: spec_fn(A) -> bool) -> Seq<A>
    decreases s.len(),
{
    if s.len() == 0 {
        Seq::empty()
    } else if p(s.last()) {
        keep_where(s.drop_last(), p).push(s.last())
    } else {
        keep_where(s.drop_last(), p)
    }
}

/// `last_index_where` finds `k` when `k` satisfies `p` and nothing after it does.
proof fn lemma_last_index_where<A>(s: Seq<A>, p: spec_fn(A) -> bool, k: int)
    requires
        -1 <= k < s.len(),
        k >= 0 ==> p(s[k]),
        forall|j: int| k < j < s.len() ==> !p(#[trigger] s[j]),
    ensures
        last_index_where(s, p) == (if k >= 0 { Some(k) } else { None::<int> }),
    decreases s.len(),
{
    if s.len() > 0 && k < s.len() - 1 {
        assert(!p(s[s.len() - 1]));
        lemma_last_index_where(s.drop_last(), p, k);
    }
}

/// `first_index_where` finds `k` when `k` satisfies `p` and nothing before it does.
proof fn lemma_first_index_where<A>(s: Seq<A>, p: spec_fn(A) -> bool, k: int)
    requires
        0 <= k <= s.len(),
        k < s.len() ==> p(s[k]),
        forall|j: int| 0 <= j < k ==> !p(#[trigger] s[j]),
    ensures
        first_index_where(s, p) == (if k < s.len() { Some(k) } else { None::<int> }),
    decreases s.len(),
{
    if s.len() > 0 && k > 0 {
        assert(!p(s[0]));
        assert forall|j: int| 0 <= j < k - 1 implies !p(#[trigger] s.drop_first()[j]) by {
            assert(s.drop_first()[j] == s[j + 1]);
        }
        lemma_first_index_where(s.drop_first(), p, k - 1);
    }
}

/// A version's identifier, time and sequence number are those of `v`.
pub open spec fn restored_version(t: HistoryTimeline, recs: Seq<EditRecord>, target: u64) -> bool {
    match last_index_where(recs, |r: EditRecord| r.version_after.sequence <= target) {
        Some(j) => t.current()@ == recs[j].version_after@ && t.next_seq() == recs[j].version_after.sequence + 1,
        None => t.current().sequence == 0 && t.next_seq() == 1,
    }
}

impl HistoryTimeline {
    /// The recorded edits, oldest first.
    pub closed spec fn records(&self) -> Seq<EditRecord> {
        self.records@
    }

    /// The snapshots: a version and the compressed text at that version, oldest first.
    pub closed spec fn snapshots(&self) -> Seq<(Version, Vec<u8>)> {
        self.snapshots@
    }

    /// The texts the snapshots hold, oldest first.
    pub closed spec fn snapshot_texts(&self) -> Seq<Seq<char>> {
        self.snapshot_texts@
    }

    /// The current version.
    pub closed spec fn current(&self) -> Version {
        self.current_version
    }

    /// The sequence number the next recorded edit gets.
    pub closed spec fn next_seq(&self) -> u64 {
        self.next_sequence
    }

    /// How many records are kept.
    pub closed spec fn max_records(&self) -> nat {
        self.max_records as nat
    }

    /// After how many edits a snapshot is taken.
    pub closed spec fn interval(&self) -> nat {
        self.snapshot_interval as nat
    }

    /// Edits recorded since the last snapshot.
    pub closed spec fn edits_since(&self) -> nat {
        self.edits_since_snapshot as nat
    }

    /// Serial number of the next record.
    pub closed spec fn next_serial(&self) -> u64 {
        self.next_record_serial
    }

    /// How many snapshots are kept: `max_records / interval + 10`.
    pub open spec fn snapshot_limit(&self) -> int {
        self.max_records() as int / self.interval() as int + 10
    }

    /// Internal consistency: the snapshots hold frames of their texts, the edit counter
    /// stays below the interval, and recorded sequence numbers leave room for one more.
    pub closed spec fn wf(&self) -> bool {
        &&& self.wf_data()
        &&& (self.edits_since_snapshot < self.snapshot_interval || self.edits_since_snapshot == 0)
    }

    /// The snapshots hold frames of their texts, the next sequence number follows the
    /// current version's, and recorded sequence numbers leave room for one more.
    pub closed spec fn wf_data(&self) -> bool {
        &&& frames_of(self.snapshots@, self.snapshot_texts@)
        &&& self.records@.len() <= if self.max_records > 0 { self.max_records as int } else { 1 }
        &&& self.next_sequence == self.current_version.sequence + 1
        &&& self.snapshot_interval > 0 ==> self.snapshots@.len() <= self.snapshot_limit()
        &&& forall|i: int| 0 <= i < self.records@.len() ==> (#[trigger] self.records@[i]).version_after.sequence < u64::MAX
    }

    /// Whether snapshots can be taken: the interval is positive and the snapshot limit
    /// fits in `usize`.
    pub open spec fn config_ok(&self) -> bool {
        &&& self.interval() > 0
        &&& self.snapshot_limit() <= usize::MAX
    }

    /// An empty timeline keeping 10000 records, with a snapshot every 100 edits.
    pub fn new() -> (t: Self)
        ensures
            t.wf(),
            t.config_ok(),
            t.records().len() == 0,
            t.snapshots().len() == 0,
            t.snapshot_texts().len() == 0,
            t.current().sequence == 0,
            t.next_seq() == 1,
            t.max_records() == 10000,
            t.interval() == 100,
            t.edits_since() == 0,
    {
        HistoryTimeline {
            records: VecDeque::new(),
            snapshots: VecDeque::new(),
            current_version: Version::new(0),
            next_sequence: 1,
            max_records: 10000,
            snapshot_interval: 100,
            edits_since_snapshot: 0,
            next_record_serial: 0,
            snapshot_texts: Ghost(Seq::empty()),
        }
    }

    /// An empty timeline keeping `max_records` records, with a snapshot every
    /// `snapshot_interval` edits.
    pub fn with_config(max_records: usize, snapshot_interval: usize) -> (t: Self)
        ensures
            t.wf(),
            t.records().len() == 0,
            t.snapshots().len() == 0,
            t.snapshot_texts().len() == 0,
            t.current().sequence == 0,
            t.next_seq() == 1,
            t.max_records() == max_records,
            t.interval() == snapshot_interval,
            t.edits_since() == 0,
    {
        HistoryTimeline {
            records: VecDeque::with_capacity(max_records),
            snapshots: VecDeque::new(),
            current_version: Version::new(0),
            next_sequence: 1,
            max_records,
            snapshot_interval,
            edits_since_snapshot: 0,
            next_record_serial: 0,
            snapshot_texts: Ghost(Seq::empty()),
        }
    }

    /// Stores a compressed snapshot of `text` at the current version (when compression
    /// succeeds), resets the edit counter and drops the oldest snapshots beyond the limit.
    pub fn take_snapshot(&mut self, text: &str)
        requires
            old(self).wf(),
            old(self).config_ok(),
        ensures
            final(self).wf(),
            final(self).records() == old(self).records(),
            final(self).current() == old(self).current(),
            final(self).next_seq() == old(self).next_seq(),
            final(self).next_serial() == old(self).next_serial(),
            final(self).max_records() == old(self).max_records(),
            final(self).interval() == old(self).interval(),
            final(self).edits_since() == 0,
            ({
                let lim = old(self).snapshot_limit();
                let kept = final(self).snapshot_texts() == keep_last(old(self).snapshot_texts(), lim)
                    && final(self).snapshots() == keep_last(old(self).snapshots(), lim);
                let added = final(self).snapshot_texts() == keep_last(old(self).snapshot_texts().push(text@), lim)
                    && final(self).snapshots().drop_last() == keep_last(old(self).snapshots(), lim - 1)
                    && final(self).snapshots().len() > 0
                    && final(self).snapshots().last().0@ == old(self).current()@;
                if zstd_encoded(encode_utf8(text@), 3) is Some { added } else { kept }
            }),
    {
        self.store_snapshot(text);
    }

    /// The work of `take_snapshot`, also done by `record_edit` after it has counted an
    /// edit past the interval.
    fn store_snapshot(&mut self, text: &str)
        requires
            old(self).wf_data(),
            old(self).config_ok(),
        ensures
            final(self).wf(),
            final(self).records() == old(self).records(),
            final(self).current() == old(self).current(),
            final(self).next_seq() == old(self).next_seq(),
            final(self).next_serial() == old(self).next_serial(),
            final(self).max_records() == old(self).max_records(),
            final(self).interval() == old(self).interval(),
            final(self).edits_since() == 0,
            ({
                let lim = old(self).snapshot_limit();
                let kept = final(self).snapshot_texts() == keep_last(old(self).snapshot_texts(), lim)
                    && final(self).snapshots() == keep_last(old(self).snapshots(), lim);
                let added = final(self).snapshot_texts() == keep_last(old(self).snapshot_texts().push(text@), lim)
                    && final(self).snapshots().drop_last() == keep_last(old(self).snapshots(), lim - 1)
                    && final(self).snapshots().len() > 0
                    && final(self).snapshots().last().0@ == old(self).current()@;
                if zstd_encoded(encode_utf8(text@), 3) is Some { added } else { kept }
            }),
    {
        let ghost old_snaps = self.snapshots@;
        let ghost old_texts = self.snapshot_texts@;
        let lim = self.max_records / self.snapshot_interval + 10;
        let bytes = text.as_bytes();
        let added = match zstd_encode(bytes, 3) {
            Some(compressed) => {
                self.snapshots.push_back((self.current_version.clone(), compressed));
                proof {
                    self.snapshot_texts = Ghost(self.snapshot_texts@.push(text@));
                }
                true
            },
            None => false,
        };
        self.edits_since_snapshot = 0;
        let ghost pushed_snaps = self.snapshots@;
        let ghost pushed_texts = self.snapshot_texts@;
        proof {
            assert(frames_of(self.snapshots@, self.snapshot_texts@)) by {
                if added {
                    assert forall|i: int| 0 <= i < self.snapshots@.len() implies zstd_encoded(encode_utf8(self.snapshot_texts@[i]), 3) == Some((#[trigger] self.snapshots@[i]).1@) by {
                        if i < old_snaps.len() {
                            assert(self.snapshots@[i] == old_snaps[i]);
                        }
                    }
                }
            }
        }
        let ghost mut dropped: int = 0;
        assert(pushed_snaps.skip(0) =~= pushed_snaps);
        assert(pushed_texts.skip(0) =~= pushed_texts);
        while self.snapshots.len() > lim
            invariant
                frames_of(self.snapshots@, self.snapshot_texts@),
                lim == self.max_records / self.snapshot_interval + 10,
                0 <= dropped <= pushed_snaps.len(),
                self.snapshots@ == pushed_snaps.skip(dropped),
                self.snapshot_texts@ == pushed_texts.skip(dropped),
                dropped > 0 ==> self.snapshots@.len() >= lim,
                pushed_snaps.len() == pushed_texts.len(),
                self.records@ == old(self).records@,
                self.current_version == old(self).current_version,
                self.next_sequence == old(self).next_sequence,
                self.next_record_serial == old(self).next_record_serial,
                self.max_records == old(self).max_records,
                self.snapshot_interval == old(self).snapshot_interval,
                self.edits_since_snapshot == 0,
                self.snapshot_interval > 0,
            decreases self.snapshots.len(),
        {
            let ghost before = self.snapshots@;
            let ghost before_texts = self.snapshot_texts@;
            self.snapshots.pop_front();
            proof {
                self.snapshot_texts = Ghost(self.snapshot_texts@.drop_first());
                assert forall|i: int| 0 <= i < self.snapshots@.len() implies zstd_encoded(encode_utf8(self.snapshot_texts@[i]), 3) == Some((#[trigger] self.snapshots@[i]).1@) by {
                    assert(self.snapshots@[i] == before[i + 1]);
                    assert(self.snapshot_texts@[i] == before_texts[i + 1]);
                }
                assert(self.snapshots@ =~= pushed_snaps.skip(dropped + 1));
                assert(self.snapshot_texts@ =~= pushed_texts.skip(dropped + 1));
                dropped = dropped + 1;
            }
        }
        proof {
            if dropped > 0 {
                assert(self.snapshots@.len() == lim);
            }
            if added {
                assert(pushed_snaps.drop_last() =~= old_snaps);
                assert(pushed_texts =~= old_texts.push(text@));
                assert(final(self).snapshots@.drop_last() =~= keep_last(old_snaps, lim - 1));
            } else {
                assert(pushed_snaps =~= old_snaps);
            }
        }
    }
}

impl HistoryTimeline {
    /// Records an edit: a new version follows the current one, the oldest record (and,
    /// when there are several, the oldest snapshot) is dropped when the records are full,
    /// and a snapshot of `current_text` is taken every `interval` edits.
    pub fn record_edit(&mut self, et: EditType, range: Range, inserted: &str, deleted: &str, current_text: &str)
        requires
            old(self).wf(),
            old(self).config_ok(),
            old(self).next_seq() < u64::MAX,
        ensures
            final(self).wf(),
            final(self).max_records() == old(self).max_records(),
            final(self).interval() == old(self).interval(),
            final(self).next_seq() == old(self).next_seq() + 1,
            final(self).next_serial() == old(self).next_serial().wrapping_add(1),
            ({
                let full = old(self).records().len() >= old(self).max_records() && old(self).records().len() > 0;
                let r = final(self).records().last();
                &&& final(self).records().len() > 0
                &&& final(self).records().drop_last() == if full { old(self).records().drop_first() } else { old(self).records() }
                &&& r.id@ == record_id_text(old(self).next_serial() as nat)
                &&& r.edit_type == et
                &&& r.range == range
                &&& r.inserted_text@ == inserted@
                &&& r.deleted_text@ == deleted@
                &&& r.version_before@ == old(self).current()@
                &&& r.version_after.sequence == old(self).next_seq()
                &&& r.version_after.sequence == old(self).current().sequence + 1
                &&& final(self).current()@ == r.version_after@
            }),
            ({
                let drop = old(self).records().len() >= old(self).max_records() && old(self).snapshots().len() > 1;
                let snaps = if drop { old(self).snapshots().drop_first() } else { old(self).snapshots() };
                let texts = if drop { old(self).snapshot_texts().drop_first() } else { old(self).snapshot_texts() };
                if old(self).edits_since() + 1 >= old(self).interval() {
                    &&& snapshot_step(snaps, texts, final(self).snapshots(), final(self).snapshot_texts(), old(self).snapshot_limit(), current_text@, final(self).current())
                    &&& final(self).edits_since() == 0
                } else {
                    &&& final(self).snapshots() == snaps
                    &&& final(self).snapshot_texts() == texts
                    &&& final(self).edits_since() == old(self).edits_since() + 1
                }
            }),
    {
        let before = self.current_version.clone();
        let after = Version::new(self.next_sequence);
        self.next_sequence = self.next_sequence + 1;
        let serial = self.next_record_serial;
        self.next_record_serial = serial.wrapping_add(1);
        let rec = EditRecord::from_parts(et, range, inserted, deleted, before, after.clone(), serial);
        let ghost old_recs = self.records@;
        if self.records.len() >= self.max_records {
            self.records.pop_front();
            if self.snapshots.len() > 1 {
                let ghost before_snaps = self.snapshots@;
                let ghost before_texts = self.snapshot_texts@;
                self.snapshots.pop_front();
                proof {
                    self.snapshot_texts = Ghost(self.snapshot_texts@.drop_first());
                    assert forall|i: int| 0 <= i < self.snapshots@.len() implies zstd_encoded(encode_utf8(self.snapshot_texts@[i]), 3) == Some((#[trigger] self.snapshots@[i]).1@) by {
                        assert(self.snapshots@[i] == before_snaps[i + 1]);
                    }
                }
            }
        }
        self.records.push_back(rec);
        self.current_version = after;
        self.edits_since_snapshot = self.edits_since_snapshot + 1;
        proof {
            assert forall|i: int| 0 <= i < self.records@.len() implies (#[trigger] self.records@[i]).version_after.sequence < u64::MAX by {
                if i < self.records@.len() - 1 {
                    if old_recs.len() >= self.max_records && old_recs.len() > 0 {
                        assert(self.records@[i] == old_recs[i + 1]);
                    } else {
                        assert(self.records@[i] == old_recs[i]);
                    }
                }
            }
        }
        if self.edits_since_snapshot >= self.snapshot_interval {
            self.store_snapshot(current_text);
        }
    }

    /// The records stamped between `from` and `to` (both included), oldest first.
    pub fn get_history(&self, from: Timestamp, to: Timestamp) -> (v: Vec<&EditRecord>)
        ensures
            v@.len() == keep_where(self.records(), |r: EditRecord| from.spec_not_after(r.timestamp) && r.timestamp.spec_not_after(to)).len(),
            forall|i: int| 0 <= i < v@.len() ==> *v@[i] == keep_where(self.records(), |r: EditRecord| from.spec_not_after(r.timestamp) && r.timestamp.spec_not_after(to))[i],
    {
        let ghost p = |r: EditRecord| from.spec_not_after(r.timestamp) && r.timestamp.spec_not_after(to);
        let mut v: Vec<&EditRecord> = Vec::new();
        let mut i: usize = 0;
        #[verifier::loop_isolation(false)]
        while i < self.records.len()
            invariant
                i <= self.records@.len(),
                v@.len() == keep_where(self.records@.take(i as int), p).len(),
                forall|k: int| 0 <= k < v@.len() ==> *v@[k] == keep_where(self.records@.take(i as int), p)[k],
            decreases self.records@.len() - i,
        {
            let r = &self.records[i];
            assert(*r == self.records@[i as int]);
            proof {
                assert(self.records@.take(i + 1).drop_last() =~= self.records@.take(i as int));
                assert(self.records@.take(i + 1).last() == *r);
            }
            let keep = from.not_after(&r.timestamp) && r.timestamp.not_after(&to);
            assert(keep == p(*r));
            if keep {
                v.push(r);
            }
            assert(keep_where(self.records@.take(i + 1), p) == if p(*r) {
                keep_where(self.records@.take(i as int), p).push(*r)
            } else {
                keep_where(self.records@.take(i as int), p)
            });
            i = i + 1;
        }
        assert(self.records@.take(i as int) =~= self.records@);
        v
    }

    /// The `n` most recent records, newest first.
    pub fn recent_records(&self, n: usize) -> (v: Vec<&EditRecord>)
        ensures
            v@.len() == if n < self.records().len() { n as int } else { self.records().len() as int },
            forall|i: int| 0 <= i < v@.len() ==> *v@[i] == self.records()[self.records().len() - 1 - i],
    {
        let len = self.records.len();
        let mut v: Vec<&EditRecord> = Vec::new();
        let mut i: usize = 0;
        while i < len && i < n
            invariant
                len == self.records@.len(),
                i <= len,
                i <= n,
                v@.len() == i,
                forall|k: int| 0 <= k < i ==> *v@[k] == self.records@[len - 1 - k],
            decreases len - i,
        {
            v.push(&self.records[len - 1 - i]);
            i = i + 1;
        }
        v
    }

    /// All records, oldest first.
    pub fn all_records(&self) -> (v: Vec<&EditRecord>)
        ensures
            v@.len() == self.records().len(),
            forall|i: int| 0 <= i < v@.len() ==> *v@[i] == self.records()[i],
    {
        let mut v: Vec<&EditRecord> = Vec::new();
        let mut i: usize = 0;
        while i < self.records.len()
            invariant
                i <= self.records@.len(),
                v@.len() == i,
                forall|k: int| 0 <= k < i ==> *v@[k] == self.records@[k],
            decreases self.records@.len() - i,
        {
            v.push(&self.records[i]);
            i = i + 1;
        }
        v
    }

    /// Index of the last snapshot whose version satisfies `target`'s bound, searching
    /// from the newest.
    fn last_snapshot_at_or_before_seq(&self, target: u64) -> (r: Option<usize>)
        ensures
            r matches Some(j) ==> Some(j as int) == last_index_where(self.snapshots(), |s: (Version, Vec<u8>)| s.0.sequence <= target),
            r is None ==> last_index_where(self.snapshots(), |s: (Version, Vec<u8>)| s.0.sequence <= target) is None,
        r matches Some(j) ==> j < self.snapshots().len(),
    {
        let ghost p = |s: (Version, Vec<u8>)| s.0.sequence <= target;
        let mut i = self.snapshots.len();
        #[verifier::loop_isolation(false)]
        while i > 0
            invariant
                i <= self.snapshots@.len(),
                forall|j: int| i <= j < self.snapshots@.len() ==> !p(#[trigger] self.snapshots@[j]),
            decreases i,
        {
            let sn = &self.snapshots[i - 1];
            assert(*sn == self.snapshots@[i - 1]);
            if sn.0.sequence <= target {
                assert(p(self.snapshots@[i - 1]));
                proof { lemma_last_index_where(self.snapshots@, p, i - 1); }
                return Some(i - 1);
            }
            i = i - 1;
        }
        proof { lemma_last_index_where(self.snapshots@, p, -1); }
        None
    }

    /// Index of the last snapshot stamped at or before `ts`.
    fn last_snapshot_at_or_before_time(&self, ts: Timestamp) -> (r: Option<usize>)
        ensures
            r matches Some(j) ==> Some(j as int) == last_index_where(self.snapshots(), |s: (Version, Vec<u8>)| s.0.timestamp.spec_not_after(ts)),
            r is None ==> last_index_where(self.snapshots(), |s: (Version, Vec<u8>)| s.0.timestamp.spec_not_after(ts)) is None,
        r matches Some(j) ==> j < self.snapshots().len(),
    {
        let ghost p = |s: (Version, Vec<u8>)| s.0.timestamp.spec_not_after(ts);
        let mut i = self.snapshots.len();
        #[verifier::loop_isolation(false)]
        while i > 0
            invariant
                i <= self.snapshots@.len(),
                forall|j: int| i <= j < self.snapshots@.len() ==> !p(#[trigger] self.snapshots@[j]),
            decreases i,
        {
            let sn = &self.snapshots[i - 1];
            assert(*sn == self.snapshots@[i - 1]);
            if sn.0.timestamp.not_after(&ts) {
                assert(p(self.snapshots@[i - 1]));
                proof { lemma_last_index_where(self.snapshots@, p, i - 1); }
                return Some(i - 1);
            }
            i = i - 1;
        }
        proof { lemma_last_index_where(self.snapshots@, p, -1); }
        None
    }

    /// The text held by snapshot `j`, decompressed.
    fn snapshot_text(&self, j: usize) -> (r: Result<String, HistoryError>)
        requires
            self.wf(),
            j < self.snapshots().len(),
        ensures
            r matches Ok(s) && s@ == self.snapshot_texts()[j as int],
    {
        proof {
            vstd::utf8::encode_utf8_valid_utf8(self.snapshot_texts@[j as int]);
            vstd::utf8::encode_utf8_decode_utf8(self.snapshot_texts@[j as int]);
            assert(zstd_encoded(encode_utf8(self.snapshot_texts@[j as int]), 3) == Some(self.snapshots@[j as int].1@));
        }
        match zstd_decode(self.snapshots[j].1.as_slice()) {
            Ok(bytes) => {
                match string_from_utf8(bytes) {
                    Some(s) => Ok(s),
                    None => Ok(String::new()),
                }
            },
            Err(e) => Err(HistoryError::Decompress(e)),
        }
    }

    /// The most recent snapshot taken at or before `ts`, decompressed, with its version.
    pub fn get_snapshot_at(&self, ts: Timestamp) -> (r: Option<(Version, String)>)
        requires
            self.wf(),
        ensures
            match last_index_where(self.snapshots(), |s: (Version, Vec<u8>)| s.0.timestamp.spec_not_after(ts)) {
                Some(j) => r matches Some(vt) && vt.0@ == self.snapshots()[j].0@ && vt.1@ == self.snapshot_texts()[j],
                None => r is None,
            },
    {
        match self.last_snapshot_at_or_before_time(ts) {
            Some(j) => {
                match self.snapshot_text(j) {
                    Ok(s) => Some((self.snapshots[j].0.clone(), s)),
                    Err(_) => None,
                }
            },
            None => None,
        }
    }

    /// The current version.
    pub fn get_current_version(&self) -> (v: &Version)
        ensures
            *v == self.current(),
    {
        &self.current_version
    }

    /// A well-formed timeline never holds more records than it keeps (at least one).
    pub proof fn law_records_bounded(&self)
        requires
            self.wf(),
        ensures
            self.records().len() <= if self.max_records() > 0 { self.max_records() as int } else { 1 },
    {
    }

    /// A well-formed timeline that can take snapshots never holds more snapshots than it
    /// keeps.
    pub proof fn law_snapshots_bounded(&self)
        requires
            self.wf(),
            self.config_ok(),
        ensures
            self.snapshots().len() <= self.snapshot_limit(),
    {
    }

    /// In a well-formed timeline the next recorded edit gets the sequence number after
    /// the current version's.
    pub proof fn law_next_follows_current(&self)
        requires
            self.wf(),
        ensures
            self.next_seq() == self.current().sequence + 1,
    {
    }

    /// In a well-formed timeline each snapshot has its text: the snapshots and their
    /// texts match one for one, and each snapshot's bytes are the zstd frame of its
    /// text's UTF-8 bytes.
    pub proof fn law_snapshot_texts_match(&self)
        requires
            self.wf(),
        ensures
            self.snapshot_texts().len() == self.snapshots().len(),
            forall|i: int| 0 <= i < self.snapshots().len() ==> zstd_encoded(encode_utf8(self.snapshot_texts()[i]), 3) == Some((#[trigger] self.snapshots()[i]).1@),
    {
    }

    /// The sequence number the next recorded edit gets.
    pub fn next_sequence(&self) -> (n: u64)
        ensures
            n == self.next_seq(),
    {
        self.next_sequence
    }

    /// Number of records kept.
    pub fn record_count(&self) -> (n: usize)
        ensures
            n == self.records().len(),
    {
        self.records.len()
    }

    /// Forgets all records and snapshots and starts again from version 0.
    pub fn clear(&mut self)
        requires
            old(self).wf(),
        ensures
            final(self).wf(),
            final(self).records().len() == 0,
            final(self).snapshots().len() == 0,
            final(self).snapshot_texts().len() == 0,
            final(self).current().sequence == 0,
            final(self).next_seq() == 1,
            final(self).edits_since() == 0,
            final(self).max_records() == old(self).max_records(),
            final(self).interval() == old(self).interval(),
    {
        self.records.clear();
        self.snapshots.clear();
        proof { self.snapshot_texts = Ghost(Seq::empty()); }
        self.current_version = Version::new(0);
        self.next_sequence = 1;
        self.edits_since_snapshot = 0;
    }

    /// Makes the version of the last record with a sequence number at most `target`
    /// current (version 0 when there is none).
    fn update_current_version_after_sequence(&mut self, target: u64)
        requires
            old(self).wf(),
        ensures
            final(self).wf(),
            restored_version(*final(self), old(self).records(), target),
            final(self).records() == old(self).records(),
            final(self).snapshots() == old(self).snapshots(),
            final(self).snapshot_texts() == old(self).snapshot_texts(),
            final(self).max_records() == old(self).max_records(),
            final(self).interval() == old(self).interval(),
            final(self).edits_since() == old(self).edits_since(),
            final(self).next_serial() == old(self).next_serial(),
    {
        let ghost p = |r: EditRecord| r.version_after.sequence <= target;
        let mut i = self.records.len();
        let mut found = false;
        while i > 0 && !found
            invariant
                i <= self.records@.len(),
                p == (|r: EditRecord| r.version_after.sequence <= target),
                found ==> i > 0 && p(self.records@[i - 1]),
                forall|j: int| i <= j < self.records@.len() ==> !p(#[trigger] self.records@[j]),
            decreases i + if found { 0int } else { 1int },
        {
            let rc = &self.records[i - 1];
            assert(*rc == self.records@[i - 1]);
            if rc.version_after.sequence <= target {
                found = true;
            } else {
                i = i - 1;
            }
        }
        if found {
            proof { lemma_last_index_where(self.records@, p, i - 1); }
            let v = self.records[i - 1].version_after.clone();
            let next = self.records[i - 1].version_after.sequence + 1;
            self.current_version = v;
            self.next_sequence = next;
        } else {
            proof { lemma_last_index_where(self.records@, p, -1); }
            self.current_version = Version::new(0);
            self.next_sequence = 1;
        }
    }

    /// Applies record `i` to `text`.
    fn apply_record_to(&self, i: usize, text: &mut TextEdit)
        requires
            old(text).wf(),
            i < self.records().len(),
        ensures
            final(text).wf(),
            final(text)@ == apply_record(old(text)@, self.records()[i as int]),
            final(text).undo_limit() == old(text).undo_limit(),
            old(text).redo_cmds().len() == 0 ==> final(text).redo_cmds().len() == 0,
            old(text).undo_cmds().len() > 0 ==> final(text).undo_cmds().len() > 0,
    {
        let rec = &self.records[i];
        match rec.edit_type {
            EditType::Insert => text.insert(rec.range.start, rec.inserted_text.as_str()),
            EditType::Delete => text.delete_range(rec.range.start, rec.range.len()),
            EditType::Replace => text.replace(&rec.range, rec.inserted_text.as_str()),
            _ => {},
        }
    }

    /// Rebuilds the text at sequence number `target`: starts from the latest snapshot at
    /// or before it (or the empty text), replays the later records up to `target`, and
    /// makes the version of the last record up to `target` current.
    pub fn goto_sequence(&mut self, target_seq: u64, text: &mut TextEdit) -> (r: Result<bool, HistoryError>)
        requires
            old(self).wf(),
            old(text).wf(),
        ensures
            r == Ok::<bool, HistoryError>(true),
            final(self).wf(),
            final(text).wf(),
            ({
                let (start, base) = match last_index_where(old(self).snapshots(), |s: (Version, Vec<u8>)| s.0.sequence <= target_seq) {
                    Some(j) => (old(self).snapshots()[j].0.sequence, old(self).snapshot_texts()[j]),
                    None => (0u64, Seq::<char>::empty()),
                };
                final(text)@ == replay_by_sequence(base, old(self).records(), start, target_seq)
            }),
            restored_version(*final(self), old(self).records(), target_seq),
            final(self).records() == old(self).records(),
            final(self).snapshots() == old(self).snapshots(),
            final(self).snapshot_texts() == old(self).snapshot_texts(),
            final(self).max_records() == old(self).max_records(),
            final(self).interval() == old(self).interval(),
            final(self).edits_since() == old(self).edits_since(),
            final(text).redo_cmds().len() == 0,
            final(text).undo_cmds().len() > 0,
            final(text).undo_limit() == old(text).undo_limit(),
    {
        let ghost lim0 = text.undo_limit();
        let (start_seq, snap_text) = match self.last_snapshot_at_or_before_seq(target_seq) {
            Some(j) => {
                let t = match self.snapshot_text(j) {
                    Ok(t) => t,
                    Err(e) => { return Err(e); },
                };
                (self.snapshots[j].0.sequence, t)
            },
            None => (0u64, String::new()),
        };
        let ghost base = snap_text@;
        let n = text.len();
        text.replace(&Range::new(0, n), snap_text.as_str());
        assert(text@ =~= base);
        let ghost recs = self.records@;
        assert(recs.skip(0) =~= recs);
        let mut i: usize = 0;
        let mut stop = false;
        while i < self.records.len() && !stop
            invariant
                recs == self.records@,
                i <= recs.len(),
                text.wf(),
                text.redo_cmds().len() == 0,
                text.undo_cmds().len() > 0,
                text.undo_limit() == lim0,
                replay_by_sequence(text@, recs.skip(i as int), start_seq, target_seq) == replay_by_sequence(base, recs, start_seq, target_seq),
                stop ==> i < recs.len() && recs[i as int].version_after.sequence > start_seq && recs[i as int].version_after.sequence > target_seq,
            decreases recs.len() - i + if stop { 0int } else { 1int },
        {
            let seq = self.records[i].version_after.sequence;
            proof {
                assert(recs.skip(i as int)[0] == recs[i as int]);
                assert(recs.skip(i as int).drop_first() =~= recs.skip(i + 1));
            }
            if seq <= start_seq {
                i = i + 1;
            } else if seq > target_seq {
                stop = true;
            } else {
                self.apply_record_to(i, text);
                i = i + 1;
            }
        }
        proof {
            if !stop {
                assert(recs.skip(i as int) =~= Seq::<EditRecord>::empty());
            } else {
                assert(recs.skip(i as int)[0] == recs[i as int]);
            }
            assert(recs.skip(0) =~= recs);
        }
        self.update_current_version_after_sequence(target_seq);
        Ok(true)
    }
}

impl HistoryTimeline {
    /// Rebuilds the text as of time `ts`: starts from the latest snapshot stamped at or
    /// before `ts` (or the empty text), replays the later records stamped at or before
    /// `ts`, and makes current the version of the last record up to the snapshot's
    /// sequence number.
    pub fn goto_time(&mut self, ts: Timestamp, text: &mut TextEdit) -> (r: Result<bool, HistoryError>)
        requires
            old(self).wf(),
            old(text).wf(),
        ensures
            r == Ok::<bool, HistoryError>(true),
            final(self).wf(),
            final(text).wf(),
            ({
                let (start, base) = match last_index_where(old(self).snapshots(), |s: (Version, Vec<u8>)| s.0.timestamp.spec_not_after(ts)) {
                    Some(j) => (old(self).snapshots()[j].0.sequence, old(self).snapshot_texts()[j]),
                    None => (0u64, Seq::<char>::empty()),
                };
                &&& final(text)@ == replay_by_time(base, old(self).records(), start, ts)
                &&& restored_version(*final(self), old(self).records(), start)
            }),
            final(self).records() == old(self).records(),
            final(self).snapshots() == old(self).snapshots(),
            final(self).snapshot_texts() == old(self).snapshot_texts(),
            final(self).max_records() == old(self).max_records(),
            final(self).interval() == old(self).interval(),
            final(self).edits_since() == old(self).edits_since(),
            final(text).redo_cmds().len() == 0,
            final(text).undo_cmds().len() > 0,
            final(text).undo_limit() == old(text).undo_limit(),
    {
        let ghost lim0 = text.undo_limit();
        let (start_seq, snap_text) = match self.last_snapshot_at_or_before_time(ts) {
            Some(j) => {
                let t = match self.snapshot_text(j) {
                    Ok(t) => t,
                    Err(e) => { return Err(e); },
                };
                (self.snapshots[j].0.sequence, t)
            },
            None => (0u64, String::new()),
        };
        let ghost base = snap_text@;
        let n = text.len();
        text.replace(&Range::new(0, n), snap_text.as_str());
        assert(text@ =~= base);
        let ghost recs = self.records@;
        assert(recs.skip(0) =~= recs);
        let mut i: usize = 0;
        let mut stop = false;
        while i < self.records.len() && !stop
            invariant
                recs == self.records@,
                i <= recs.len(),
                text.wf(),
                text.redo_cmds().len() == 0,
                text.undo_cmds().len() > 0,
                text.undo_limit() == lim0,
                replay_by_time(text@, recs.skip(i as int), start_seq, ts) == replay_by_time(base, recs, start_seq, ts),
                stop ==> i < recs.len() && recs[i as int].version_after.sequence > start_seq && !recs[i as int].timestamp.spec_not_after(ts),
            decreases recs.len() - i + if stop { 0int } else { 1int },
        {
            let seq = self.records[i].version_after.sequence;
            let later = !self.records[i].timestamp.not_after(&ts);
            proof {
                assert(recs.skip(i as int)[0] == recs[i as int]);
                assert(recs.skip(i as int).drop_first() =~= recs.skip(i + 1));
            }
            if seq <= start_seq {
                i = i + 1;
            } else if later {
                stop = true;
            } else {
                self.apply_record_to(i, text);
                i = i + 1;
            }
        }
        proof {
            if !stop {
                assert(recs.skip(i as int) =~= Seq::<EditRecord>::empty());
            } else {
                assert(recs.skip(i as int)[0] == recs[i as int]);
            }
        }
        self.update_current_version_after_sequence(start_seq);
        Ok(true)
    }

    /// Goes to the version with identifier `version_id`: the first record whose version
    /// after it has that identifier, or else the first snapshot with it, gives the
    /// sequence number to go to. Returns `Ok(false)`, changing nothing, when no version
    /// has that identifier.
    pub fn goto_version(&mut self, version_id: &str, text: &mut TextEdit) -> (r: Result<bool, HistoryError>)
        requires
            old(self).wf(),
            old(text).wf(),
        ensures
            final(self).wf(),
            final(text).wf(),
            final(self).records() == old(self).records(),
            final(self).snapshots() == old(self).snapshots(),
            final(self).snapshot_texts() == old(self).snapshot_texts(),
            ({
                let in_records = first_index_where(old(self).records(), |rec: EditRecord| rec.version_after.id@ == version_id@);
                let in_snapshots = first_index_where(old(self).snapshots(), |s: (Version, Vec<u8>)| s.0.id@ == version_id@);
                let target: Option<u64> = match in_records {
                    Some(j) => Some(old(self).records()[j].version_after.sequence),
                    None => match in_snapshots {
                        Some(j) => Some(old(self).snapshots()[j].0.sequence),
                        None => None,
                    },
                };
                match target {
                    None => r == Ok::<bool, HistoryError>(false) && *final(text) == *old(text) && *final(self) == *old(self),
                    Some(seq) => {
                        let (start, base) = match last_index_where(old(self).snapshots(), |s: (Version, Vec<u8>)| s.0.sequence <= seq) {
                            Some(j) => (old(self).snapshots()[j].0.sequence, old(self).snapshot_texts()[j]),
                            None => (0u64, Seq::<char>::empty()),
                        };
                        &&& r == Ok::<bool, HistoryError>(true)
                        &&& final(text)@ == replay_by_sequence(base, old(self).records(), start, seq)
                        &&& restored_version(*final(self), old(self).records(), seq)
                        &&& final(text).redo_cmds().len() == 0
                        &&& final(text).undo_cmds().len() > 0
                        &&& final(text).undo_limit() == old(text).undo_limit()
                    },
                }
            }),
    {
        let ghost pr = |rec: EditRecord| rec.version_after.id@ == version_id@;
        let ghost ps = |s: (Version, Vec<u8>)| s.0.id@ == version_id@;
        let mut target: Option<u64> = None;
        let mut i: usize = 0;
        #[verifier::loop_isolation(false)]
        while i < self.records.len() && target.is_none()
            invariant
                i <= self.records@.len(),
                forall|j: int| 0 <= j < i ==> !pr(#[trigger] self.records@[j]),
                target matches Some(t) ==> i < self.records@.len() && pr(self.records@[i as int])
                    && t == self.records@[i as int].version_after.sequence,
            decreases self.records@.len() - i + if target is Some { 0int } else { 1int },
        {
            let rc = &self.records[i];
            assert(*rc == self.records@[i as int]);
            if str_eq(rc.version_after.id.as_str(), version_id) {
                target = Some(rc.version_after.sequence);
            } else {
                i = i + 1;
            }
        }
        proof {
            lemma_first_index_where(self.records@, pr, i as int);
        }
        if target.is_none() {
            let mut k: usize = 0;
            #[verifier::loop_isolation(false)]
            while k < self.snapshots.len() && target.is_none()
                invariant
                    k <= self.snapshots@.len(),
                    forall|j: int| 0 <= j < k ==> !ps(#[trigger] self.snapshots@[j]),
                    target matches Some(t) ==> k < self.snapshots@.len() && ps(self.snapshots@[k as int])
                        && t == self.snapshots@[k as int].0.sequence,
                decreases self.snapshots@.len() - k + if target is Some { 0int } else { 1int },
            {
                let sn = &self.snapshots[k];
                assert(*sn == self.snapshots@[k as int]);
                if str_eq(sn.0.id.as_str(), version_id) {
                    target = Some(sn.0.sequence);
                } else {
                    k = k + 1;
                }
            }
            proof {
                lemma_first_index_where(self.snapshots@, ps, k as int);
            }
        }
        match target {
            None => Ok(false),
            Some(t) => self.goto_sequence(t, text),
        }
    }
}

/// `b` holds copies of the records of `a`, in order.
pub open spec fn same_records(a: Seq<EditRecord>, b: Seq<EditRecord>) -> bool {
    &&& a.len() == b.len()
    &&& forall|i: int| 0 <= i < a.len() ==> {
        let (x, y) = (a[i], #[trigger] b[i]);
        &&& y.id@ == x.id@
        &&& y.edit_type == x.edit_type
        &&& y.range == x.range
        &&& y.inserted_text@ == x.inserted_text@
        &&& y.deleted_text@ == x.deleted_text@
        &&& y.timestamp == x.timestamp
        &&& y.version_before@ == x.version_before@
        &&& y.version_after@ == x.version_after@
    }
}

/// `b` holds copies of the snapshots of `a`, in order.
pub open spec fn same_snapshots(a: Seq<(Version, Vec<u8>)>, b: Seq<(Version, Vec<u8>)>) -> bool {
    &&& a.len() == b.len()
    &&& forall|i: int| 0 <= i < a.len() ==> (#[trigger] b[i]).0@ == a[i].0@ && b[i].1@ == a[i].1@
}

impl Clone for HistoryTimeline {
    /// Copies of the records, snapshots and current version, with the same settings and
    /// counters.
    fn clone(&self) -> (t: Self)
        ensures
            same_records(self.records(), t.records()),
            same_snapshots(self.snapshots(), t.snapshots()),
            t.snapshot_texts() == self.snapshot_texts(),
            t.current()@ == self.current()@,
            t.next_seq() == self.next_seq(),
            t.max_records() == self.max_records(),
            t.interval() == self.interval(),
            t.edits_since() == self.edits_since(),
            t.next_serial() == self.next_serial(),
            self.wf() ==> t.wf(),
    {
        let mut records: VecDeque<EditRecord> = VecDeque::new();
        let mut i: usize = 0;
        while i < self.records.len()
            invariant
                i <= self.records.len(),
                records@.len() == i,
                forall|k: int| 0 <= k < i ==> {
                    let (x, y) = (self.records@[k], #[trigger] records@[k]);
                    &&& y.id@ == x.id@
                    &&& y.edit_type == x.edit_type
                    &&& y.range == x.range
                    &&& y.inserted_text@ == x.inserted_text@
                    &&& y.deleted_text@ == x.deleted_text@
                    &&& y.timestamp == x.timestamp
                    &&& y.version_before@ == x.version_before@
                    &&& y.version_after@ == x.version_after@
                },
            decreases self.records.len() - i,
        {
            let r = self.records[i].clone();
            records.push_back(r);
            i = i + 1;
        }
        let mut snapshots: VecDeque<(Version, Vec<u8>)> = VecDeque::new();
        let mut j: usize = 0;
        while j < self.snapshots.len()
            invariant
                j <= self.snapshots.len(),
                snapshots@.len() == j,
                forall|k: int| 0 <= k < j ==> (#[trigger] snapshots@[k]).0@ == self.snapshots@[k].0@ && snapshots@[k].1@ == self.snapshots@[k].1@,
            decreases self.snapshots.len() - j,
        {
            let v = self.snapshots[j].0.clone();
            let b = self.snapshots[j].1.clone();
            snapshots.push_back((v, b));
            j = j + 1;
        }
        let t = HistoryTimeline {
            records,
            snapshots,
            current_version: self.current_version.clone(),
            next_sequence: self.next_sequence,
            max_records: self.max_records,
            snapshot_interval: self.snapshot_interval,
            edits_since_snapshot: self.edits_since_snapshot,
            next_record_serial: self.next_record_serial,
            snapshot_texts: Ghost(self.snapshot_texts@),
        };
        proof {
            if self.wf() {
                assert forall|i: int| 0 <= i < t.records@.len() implies (#[trigger] t.records@[i]).version_after.sequence < u64::MAX by {
                    assert(t.records@[i].version_after@ == self.records@[i].version_after@);
                }
                assert forall|i: int| 0 <= i < t.snapshots@.len() implies zstd_encoded(encode_utf8(t.snapshot_texts@[i]), 3) == Some((#[trigger] t.snapshots@[i]).1@) by {
                    assert(t.snapshots@[i].1@ == self.snapshots@[i].1@);
                }
            }
        }
        t
    }
}

impl Default for HistoryTimeline {
    /// The same as `new`.
    fn default() -> (t: Self)
        ensures
            t.wf(),
            t.config_ok(),
            t.records().len() == 0,
            t.snapshots().len() == 0,
            t.snapshot_texts().len() == 0,
            t.current().sequence == 0,
            t.next_seq() == 1,
    {
        Self::new()
    }
}

/// Going to the sequence number the replay starts from replays nothing: going to a
/// snapshot's own sequence number gives back that snapshot's text.
pub proof fn law_replay_to_start(t: Seq<char>, recs: Seq<EditRecord>, s: u64)
    ensures
        replay_by_sequence(t, recs, s, s) == t,
    decreases recs.len(),
{
    if recs.len() > 0 {
        law_replay_to_start(t, recs.drop_first(), s);
    }
}

} // verus!
