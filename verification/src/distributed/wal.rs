//! Write-ahead log: every operation is framed and appended before it is applied, and a
//! restart replays the log up to the first frame that is not whole.

use vstd::prelude::*;

use crate::codec::{append_bytes, copy_range, get_le32, le32, le64, put_le32, read_le32, read_le64};
use crate::codec::{lemma_le32_round_trip, lemma_le64_round_trip};
use crate::facts::{lemma_filter_front, lemma_filter_member};
use crate::storage::Timestamp;

verus! {

broadcast use crate::codec::group_codec;

/// Kind of a log entry.
#[derive(Debug, Clone, Copy, PartialEq, Eq, Structural)]
pub enum WalEntryType {
    /// Insert a new node.
    InsertNode,
    /// Update an existing node.
    UpdateNode,
    /// Delete a node.
    DeleteNode,
    /// Insert a new edge.
    InsertEdge,
    /// Delete an edge.
    DeleteEdge,
    /// Transaction begin.
    TxBegin,
    /// Transaction commit.
    TxCommit,
    /// Transaction rollback.
    TxRollback,
    /// Checkpoint marker.
    Checkpoint,
}

impl WalEntryType {
    /// Number of the kind in the log.
    pub open spec fn tag(&self) -> u32 {
        match *self {
            WalEntryType::InsertNode => 0,
            WalEntryType::UpdateNode => 1,
            WalEntryType::DeleteNode => 2,
            WalEntryType::InsertEdge => 3,
            WalEntryType::DeleteEdge => 4,
            WalEntryType::TxBegin => 5,
            WalEntryType::TxCommit => 6,
            WalEntryType::TxRollback => 7,
            WalEntryType::Checkpoint => 8,
        }
    }

    /// The kind with a given number.
    pub open spec fn spec_from_tag(tag: u32) -> Option<WalEntryType> {
        if tag == 0 {
            Some(WalEntryType::InsertNode)
        } else if tag == 1 {
            Some(WalEntryType::UpdateNode)
        } else if tag == 2 {
            Some(WalEntryType::DeleteNode)
        } else if tag == 3 {
            Some(WalEntryType::InsertEdge)
        } else if tag == 4 {
            Some(WalEntryType::DeleteEdge)
        } else if tag == 5 {
            Some(WalEntryType::TxBegin)
        } else if tag == 6 {
            Some(WalEntryType::TxCommit)
        } else if tag == 7 {
            Some(WalEntryType::TxRollback)
        } else if tag == 8 {
            Some(WalEntryType::Checkpoint)
        } else {
            None
        }
    }

    fn number(&self) -> (r: u32)
        ensures
            r == self.tag(),
    {
        match *self {
            WalEntryType::InsertNode => 0,
            WalEntryType::UpdateNode => 1,
            WalEntryType::DeleteNode => 2,
            WalEntryType::InsertEdge => 3,
            WalEntryType::DeleteEdge => 4,
            WalEntryType::TxBegin => 5,
            WalEntryType::TxCommit => 6,
            WalEntryType::TxRollback => 7,
            WalEntryType::Checkpoint => 8,
        }
    }

    fn from_number(tag: u32) -> (r: Option<WalEntryType>)
        ensures
            r == WalEntryType::spec_from_tag(tag),
    {
        match tag {
            0 => Some(WalEntryType::InsertNode),
            1 => Some(WalEntryType::UpdateNode),
            2 => Some(WalEntryType::DeleteNode),
            3 => Some(WalEntryType::InsertEdge),
            4 => Some(WalEntryType::DeleteEdge),
            5 => Some(WalEntryType::TxBegin),
            6 => Some(WalEntryType::TxCommit),
            7 => Some(WalEntryType::TxRollback),
            8 => Some(WalEntryType::Checkpoint),
            _ => None,
        }
    }
}

/// The fields of a log entry.
pub struct WalView {
    /// Log sequence number.
    pub lsn: u64,
    /// Milliseconds since the Unix epoch.
    pub millis: i64,
    /// Kind of operation.
    pub kind: WalEntryType,
    /// Transaction, if the entry belongs to one.
    pub tx_id: Option<u64>,
    /// Payload.
    pub data: Seq<u8>,
}

/// A signed number as the unsigned one with the same 64 bits.
pub open spec fn twos_complement(x: i64) -> u64 {
    if x < 0 {
        (x + 0x1_0000_0000_0000_0000) as u64
    } else {
        x as u64
    }
}

/// The signed number whose 64 bits are those of `x`.
pub open spec fn from_twos_complement(x: int) -> i64 {
    if x > i64::MAX {
        (x - 0x1_0000_0000_0000_0000) as i64
    } else {
        x as i64
    }
}

/// A flag byte, followed by the number if there is one.
pub open spec fn optional_le64(x: Option<u64>) -> Seq<u8> {
    match x {
        None => seq![0u8],
        Some(v) => seq![1u8] + le64(v),
    }
}

/// The record of five fields: fixed-width little-endian integers, an optional number
/// behind a flag byte, and bytes behind their 64-bit length.
pub open spec fn record(lsn: u64, millis: i64, tag: u32, tx_id: Option<u64>, data: Seq<u8>) -> Seq<
    u8,
> {
    le64(lsn) + le64(twos_complement(millis)) + le32(tag) + optional_le64(tx_id) + le64(
        data.len() as u64,
    ) + data
}

/// Where the payload length stands in a record: behind an absent or a present number.
pub open spec fn length_at(s: Seq<u8>) -> int {
    if s[20] == 0 {
        21
    } else {
        29
    }
}

/// Whether a record can be read: every field is there, the flag byte is 0 or 1.
/// Bytes behind the payload are ignored.
pub open spec fn record_readable(s: Seq<u8>) -> bool {
    &&& s.len() >= 21
    &&& s[20] <= 1
    &&& s.len() >= length_at(s) + 8
    &&& s.len() >= length_at(s) + 8 + read_le64(s, length_at(s))
}

/// The fields of a readable record.
pub open spec fn read_record(s: Seq<u8>) -> (u64, i64, u32, Option<u64>, Seq<u8>) {
    let at = length_at(s);
    (
        read_le64(s, 0) as u64,
        from_twos_complement(read_le64(s, 8)),
        read_le32(s, 16) as u32,
        if s[20] == 0 {
            None
        } else {
            Some(read_le64(s, 21) as u64)
        },
        s.subrange(at + 8, at + 8 + read_le64(s, at)),
    )
}

/// Calls `bincode::serialize` on the tuple of the five fields. With its fixed-width
/// little-endian integers and no size limit the call succeeds and writes the fields one
/// after another, as [`record`] states.
#[verifier::external_body]
fn serialize_record(lsn: u64, millis: i64, tag: u32, tx_id: Option<u64>, data: &[u8]) -> (r: Option<
    Vec<u8>,
>)
    ensures
        r is Some,
        r->0@ == record(lsn, millis, tag, tx_id, data@),
{
    bincode::serialize(&(lsn, millis, tag, tx_id, data)).ok()
}

/// Calls `bincode::deserialize` for the tuple of the five fields. It fails where the bytes
/// end early or the flag byte is neither 0 nor 1, and else returns the fields that
/// [`read_record`] states, ignoring what follows them.
#[verifier::external_body]
fn deserialize_record(s: &[u8]) -> (r: Option<(u64, i64, u32, Option<u64>, Vec<u8>)>)
    ensures
        r is Some <==> record_readable(s@),
        r matches Some(f) ==> (f.0, f.1, f.2, f.3, f.4@) == read_record(s@),
{
    bincode::deserialize::<(u64, i64, u32, Option<u64>, Vec<u8>)>(s).ok()
}

/// The CRC-32 checksum of `data`, as `crc32fast::Hasher` computes it.
pub uninterp spec fn crc32(data: Seq<u8>) -> u32;

/// Whether two texts of bytes are equally long and differ in one byte.
pub open spec fn differ_in_one(a: Seq<u8>, b: Seq<u8>) -> bool {
    exists|k: int| 0 <= k < a.len() && a[k] != b[k] && b == #[trigger] a.update(k, b[k])
}

/// Feeds `data` to a fresh `crc32fast::Hasher` by one `update` and returns what `finalize`
/// gives: a function of the bytes, named [`crc32`]. Like every cyclic redundancy check of 32
/// bits whose polynomial has a constant term, it tells apart bytes that differ within 32
/// neighbouring bits; of that the contract says that a change of one byte changes it.
#[verifier::external_body]
fn checksum(data: &[u8]) -> (r: u32)
    ensures
        r == crc32(data@),
        forall|other: Seq<u8>| differ_in_one(data@, other) ==> #[trigger] crc32(other) != r,
{
    let mut hasher = crc32fast::Hasher::new();
    hasher.update(data);
    hasher.finalize()
}

/// Why the next frame of a log could not be read.
#[derive(Debug, Clone, Copy, PartialEq, Eq, Structural)]
pub enum WalError {
    /// Fewer bytes than a frame header.
    TooShort,
    /// Fewer bytes than the header announces.
    Truncated,
    /// The checksum does not match.
    ChecksumMismatch,
    /// The record behind a matching checksum cannot be decoded.
    Undecodable,
}

impl WalError {
    /// The message of the error.
    pub open spec fn text(&self) -> Seq<char> {
        match *self {
            WalError::TooShort => "WAL entry too short"@,
            WalError::Truncated => "WAL entry truncated"@,
            WalError::ChecksumMismatch => "WAL entry checksum mismatch"@,
            WalError::Undecodable => "WAL entry undecodable"@,
        }
    }

    /// The message of the error.
    pub fn message(&self) -> (s: String)
        ensures
            s@ == self.text(),
    {
        match *self {
            WalError::TooShort => crate::text::copy_str("WAL entry too short"),
            WalError::Truncated => crate::text::copy_str("WAL entry truncated"),
            WalError::ChecksumMismatch => crate::text::copy_str("WAL entry checksum mismatch"),
            WalError::Undecodable => crate::text::copy_str("WAL entry undecodable"),
        }
    }
}

/// The record of an entry.
pub open spec fn entry_record(e: WalView) -> Seq<u8> {
    record(e.lsn, e.millis, e.kind.tag(), e.tx_id, e.data)
}

/// The frame of a record: its length, its checksum, then the record.
pub open spec fn frame_of(rec: Seq<u8>) -> Seq<u8> {
    le32((rec.len() % 4294967296) as u32) + le32(crc32(rec)) + rec
}

/// The frame of an entry.
pub open spec fn frame(e: WalView) -> Seq<u8> {
    frame_of(entry_record(e))
}

/// The entry that a record holds.
pub open spec fn decode_record(s: Seq<u8>) -> Option<WalView> {
    if !record_readable(s) {
        None
    } else {
        let f = read_record(s);
        match WalEntryType::spec_from_tag(f.2) {
            None => None,
            Some(kind) => Some(
                WalView { lsn: f.0, millis: f.1, kind, tx_id: f.3, data: f.4 },
            ),
        }
    }
}

/// The first frame of `s` and its length, or why there is none.
pub open spec fn parse_frame(s: Seq<u8>) -> Result<(WalView, int), WalError> {
    if s.len() < 8 {
        Err(WalError::TooShort)
    } else if s.len() < 8 + read_le32(s, 0) {
        Err(WalError::Truncated)
    } else {
        let rec = s.subrange(8, 8 + read_le32(s, 0));
        if crc32(rec) != read_le32(s, 4) {
            Err(WalError::ChecksumMismatch)
        } else {
            match decode_record(rec) {
                None => Err(WalError::Undecodable),
                Some(e) => Ok((e, 8 + read_le32(s, 0))),
            }
        }
    }
}

/// The entries of a log: frame by frame, up to the first that cannot be read.
pub open spec fn log_entries(s: Seq<u8>) -> Seq<WalView>
    decreases s.len(),
{
    if s.len() == 0 {
        Seq::empty()
    } else {
        match parse_frame(s) {
            Ok(p) if 0 < p.1 <= s.len() => seq![p.0] + log_entries(s.skip(p.1)),
            _ => Seq::empty(),
        }
    }
}

/// Length of what can be read of a log: of its frames up to the first that cannot be read.
pub open spec fn whole_length(s: Seq<u8>) -> int
    decreases s.len(),
{
    if s.len() == 0 {
        0
    } else {
        match parse_frame(s) {
            Ok(p) if 0 < p.1 <= s.len() => p.1 + whole_length(s.skip(p.1)),
            _ => 0,
        }
    }
}

/// The frames of some entries, one after another.
pub open spec fn frames(entries: Seq<WalView>) -> Seq<u8>
    decreases entries.len(),
{
    if entries.len() == 0 {
        Seq::empty()
    } else {
        frame(entries[0]) + frames(entries.skip(1))
    }
}

/// The entries at or above a sequence number.
pub open spec fn entries_from(entries: Seq<WalView>, lsn: u64) -> Seq<WalView> {
    entries.filter(|e: WalView| e.lsn >= lsn)
}

/// The record fits the frame's length field.
pub open spec fn framable(e: WalView) -> bool {
    entry_record(e).len() < 4294967296
}

/// One entry of the log.
#[derive(Debug)]
pub struct WalEntry {
    /// Log sequence number.
    pub lsn: u64,
    /// Time of the entry.
    pub timestamp: Timestamp,
    /// Kind of operation.
    pub entry_type: WalEntryType,
    /// Transaction, if the entry belongs to one.
    pub tx_id: Option<u64>,
    /// Payload.
    pub data: Vec<u8>,
}

impl View for WalEntry {
    type V = WalView;

    open spec fn view(&self) -> WalView {
        WalView {
            lsn: self.lsn,
            millis: self.timestamp.millis,
            kind: self.entry_type,
            tx_id: self.tx_id,
            data: self.data@,
        }
    }
}

impl WalEntry {
    /// Creates an entry stamped with the current time.
    pub fn new(lsn: u64, entry_type: WalEntryType, data: Vec<u8>) -> (r: Self)
        ensures
            r.lsn == lsn,
            r.entry_type == entry_type,
            r.tx_id is None,
            r.data@ == data@,
    {
        WalEntry::at(lsn, Timestamp::now(), entry_type, None, data)
    }

    /// Creates an entry of a transaction, stamped with the current time.
    pub fn with_tx(lsn: u64, entry_type: WalEntryType, tx_id: u64, data: Vec<u8>) -> (r: Self)
        ensures
            r.lsn == lsn,
            r.entry_type == entry_type,
            r.tx_id == Some(tx_id),
            r.data@ == data@,
    {
        WalEntry::at(lsn, Timestamp::now(), entry_type, Some(tx_id), data)
    }

    /// Creates an entry with a given time.
    pub fn at(
        lsn: u64,
        timestamp: Timestamp,
        entry_type: WalEntryType,
        tx_id: Option<u64>,
        data: Vec<u8>,
    ) -> (r: Self)
        ensures
            r@ == (WalView {
                lsn,
                millis: timestamp.millis,
                kind: entry_type,
                tx_id,
                data: data@,
            }),
    {
        WalEntry { lsn, timestamp, entry_type, tx_id, data }
    }

    /// The frame of the entry. Where one byte behind its length is changed, the frame is
    /// refused.
    pub fn to_bytes(&self) -> (r: Vec<u8>)
        ensures
            r@ == frame(self@),
            framable(self@) ==> forall|k: int, x: u8|
                4 <= k < r@.len() && x != r@[k] ==> parse_frame(#[trigger] r@.update(k, x)) == Err::<
                    (WalView, int),
                    WalError,
                >(WalError::ChecksumMismatch),
    {
        let rec = serialize_record(
            self.lsn,
            self.timestamp.millis,
            self.entry_type.number(),
            self.tx_id,
            self.data.as_slice(),
        ).unwrap();
        let mut out: Vec<u8> = Vec::new();
        put_le32(&mut out, ((rec.len() as u64) % 4294967296) as u32);
        put_le32(&mut out, checksum(rec.as_slice()));
        append_bytes(&mut out, rec.as_slice());
        assert(out@ =~= frame(self@));
        proof {
            if framable(self@) {
                assert forall|k: int, x: u8| 4 <= k < out@.len() && x != out@[k] implies parse_frame(
                    #[trigger] out@.update(k, x),
                ) == Err::<(WalView, int), WalError>(WalError::ChecksumMismatch) by {
                    lemma_changed_frame(self@, k, x);
                }
            }
        }
        out
    }

    /// Reads the first frame of `data`, with its length.
    pub fn from_bytes(data: &[u8]) -> (r: Result<(WalEntry, usize), WalError>)
        ensures
            match r {
                Ok(p) => parse_frame(data@) == Ok::<(WalView, int), WalError>((p.0@, p.1 as int)),
                Err(e) => parse_frame(data@) == Err::<(WalView, int), WalError>(e),
            },
            r matches Ok(p) ==> 8 <= p.1 <= data@.len(),
    {
        if data.len() < 8 {
            return Err(WalError::TooShort);
        }
        let len: usize = get_le32(data, 0) as usize;
        let stored: u32 = get_le32(data, 4);
        if data.len() - 8 < len {
            return Err(WalError::Truncated);
        }
        let rec = copy_range(data, 8, 8 + len);
        if checksum(rec.as_slice()) != stored {
            return Err(WalError::ChecksumMismatch);
        }
        match deserialize_record(rec.as_slice()) {
            None => Err(WalError::Undecodable),
            Some(f) => {
                match WalEntryType::from_number(f.2) {
                    None => Err(WalError::Undecodable),
                    Some(kind) => {
                        let entry = WalEntry {
                            lsn: f.0,
                            timestamp: Timestamp { millis: f.1 },
                            entry_type: kind,
                            tx_id: f.3,
                            data: f.4,
                        };
                        Ok((entry, 8 + len))
                    },
                }
            },
        }
    }
}

/// The views of a vector of entries.
pub open spec fn views(v: Seq<WalEntry>) -> Seq<WalView> {
    Seq::new(v.len(), |i: int| v[i]@)
}

/// The sequence number behind another. Behind the greatest comes 0.
pub open spec fn number_after(lsn: u64) -> u64 {
    if lsn == u64::MAX {
        0
    } else {
        (lsn + 1) as u64
    }
}

/// A log that is being written: the sequence number of the next entry, and whether each
/// entry is forced to the disk.
pub struct WriteAheadLog {
    lsn: u64,
    sync_mode: bool,
}

impl WriteAheadLog {
    /// Sequence number of the next entry.
    pub closed spec fn next_lsn(&self) -> u64 {
        self.lsn
    }

    /// Whether each entry is forced to the disk.
    pub closed spec fn syncs(&self) -> bool {
        self.sync_mode
    }

    /// Opens a log whose last entry has the given number, forcing each entry to the disk.
    pub fn open(last_lsn: Option<u64>) -> (r: Self)
        requires
            last_lsn != Some(u64::MAX),
        ensures
            r.next_lsn() == (match last_lsn {
                None => 1,
                Some(l) => (l + 1) as u64,
            }),
            r.syncs(),
    {
        WriteAheadLog::open_with_options(last_lsn, true)
    }

    /// Opens a log whose last entry has the given number: numbering goes on behind it, and
    /// starts at 1 in an empty log.
    pub fn open_with_options(last_lsn: Option<u64>, sync_mode: bool) -> (r: Self)
        requires
            last_lsn != Some(u64::MAX),
        ensures
            r.next_lsn() == (match last_lsn {
                None => 1,
                Some(l) => (l + 1) as u64,
            }),
            r.syncs() == sync_mode,
    {
        let last: u64 = match last_lsn {
            None => 0,
            Some(l) => l,
        };
        WriteAheadLog { lsn: last + 1, sync_mode }
    }

    /// Whether each entry is to be forced to the disk.
    pub fn sync_mode(&self) -> (r: bool)
        ensures
            r == self.syncs(),
    {
        self.sync_mode
    }

    /// Number of the next entry.
    pub fn current_lsn(&self) -> (r: u64)
        ensures
            r == self.next_lsn(),
    {
        self.lsn
    }

    /// Takes the next number for an entry and returns the number and the frame to append.
    pub fn append(
        &mut self,
        now: Timestamp,
        entry_type: WalEntryType,
        data: Vec<u8>,
    ) -> (r: (u64, Vec<u8>))
        ensures
            final(self).next_lsn() == number_after(old(self).next_lsn()),
            final(self).syncs() == old(self).syncs(),
            r.0 == old(self).next_lsn(),
            r.1@ == frame(
                (WalView {
                    lsn: r.0,
                    millis: now.millis,
                    kind: entry_type,
                    tx_id: None,
                    data: data@,
                }),
            ),
    {
        self.append_entry(now, entry_type, None, data)
    }

    /// Takes the next number for an entry of a transaction and returns the number and the
    /// frame to append.
    pub fn append_tx(
        &mut self,
        now: Timestamp,
        entry_type: WalEntryType,
        tx_id: u64,
        data: Vec<u8>,
    ) -> (r: (u64, Vec<u8>))
        ensures
            final(self).next_lsn() == number_after(old(self).next_lsn()),
            final(self).syncs() == old(self).syncs(),
            r.0 == old(self).next_lsn(),
            r.1@ == frame(
                (WalView {
                    lsn: r.0,
                    millis: now.millis,
                    kind: entry_type,
                    tx_id: Some(tx_id),
                    data: data@,
                }),
            ),
    {
        self.append_entry(now, entry_type, Some(tx_id), data)
    }

    fn append_entry(
        &mut self,
        now: Timestamp,
        entry_type: WalEntryType,
        tx_id: Option<u64>,
        data: Vec<u8>,
    ) -> (r: (u64, Vec<u8>))
        ensures
            final(self).next_lsn() == number_after(old(self).next_lsn()),
            final(self).syncs() == old(self).syncs(),
            r.0 == old(self).next_lsn(),
            r.1@ == frame(
                (WalView {
                    lsn: r.0,
                    millis: now.millis,
                    kind: entry_type,
                    tx_id,
                    data: data@,
                }),
            ),
    {
        let lsn: u64 = self.lsn;
        self.lsn = lsn.wrapping_add(1);
        let entry = WalEntry::at(lsn, now, entry_type, tx_id, data);
        (lsn, entry.to_bytes())
    }

    /// Logs the insertion of a node, given its bytes.
    pub fn log_insert_node(&mut self, now: Timestamp, node: Vec<u8>) -> (r: (u64, Vec<u8>))
        ensures
            logged(*old(self), *final(self), r, now, WalEntryType::InsertNode, node@),
    {
        self.append(now, WalEntryType::InsertNode, node)
    }

    /// Logs the update of a node, given the bytes of its identifier and properties.
    pub fn log_update_node(&mut self, now: Timestamp, update: Vec<u8>) -> (r: (u64, Vec<u8>))
        ensures
            logged(*old(self), *final(self), r, now, WalEntryType::UpdateNode, update@),
    {
        self.append(now, WalEntryType::UpdateNode, update)
    }

    /// Logs the deletion of a node, given the bytes of its identifier.
    pub fn log_delete_node(&mut self, now: Timestamp, id: Vec<u8>) -> (r: (u64, Vec<u8>))
        ensures
            logged(*old(self), *final(self), r, now, WalEntryType::DeleteNode, id@),
    {
        self.append(now, WalEntryType::DeleteNode, id)
    }

    /// Logs the insertion of an edge, given its bytes.
    pub fn log_insert_edge(&mut self, now: Timestamp, edge: Vec<u8>) -> (r: (u64, Vec<u8>))
        ensures
            logged(*old(self), *final(self), r, now, WalEntryType::InsertEdge, edge@),
    {
        self.append(now, WalEntryType::InsertEdge, edge)
    }

    /// Logs the deletion of an edge, given the bytes of its identifier.
    pub fn log_delete_edge(&mut self, now: Timestamp, id: Vec<u8>) -> (r: (u64, Vec<u8>))
        ensures
            logged(*old(self), *final(self), r, now, WalEntryType::DeleteEdge, id@),
    {
        self.append(now, WalEntryType::DeleteEdge, id)
    }

    /// Logs a checkpoint.
    pub fn checkpoint(&mut self, now: Timestamp) -> (r: (u64, Vec<u8>))
        ensures
            logged(*old(self), *final(self), r, now, WalEntryType::Checkpoint, Seq::empty()),
    {
        self.append(now, WalEntryType::Checkpoint, Vec::new())
    }

    /// Reads the entries of a log image.
    pub fn read_all(image: &[u8]) -> (r: Vec<WalEntry>)
        ensures
            views(r@) == log_entries(image@),
    {
        let mut out: Vec<WalEntry> = Vec::new();
        let mut at: usize = 0;
        let mut whole: bool = true;
        proof {
            assert(image@.skip(0) =~= image@);
            assert(views(out@) + log_entries(image@) =~= log_entries(image@));
        }
        while whole && at < image.len()
            invariant
                at <= image@.len(),
                whole ==> views(out@) + log_entries(image@.skip(at as int)) == log_entries(image@),
                !whole ==> views(out@) == log_entries(image@),
            decreases image@.len() - at, whole as int,
        {
            let tail = copy_range(image, at, image.len());
            assert(tail@ =~= image@.skip(at as int));
            match WalEntry::from_bytes(tail.as_slice()) {
                Ok(p) => {
                    let ghost before = views(out@);
                    let ghost rest = tail@.skip(p.1 as int);
                    out.push(p.0);
                    proof {
                        assert(log_entries(tail@) == seq![p.0@] + log_entries(rest));
                        assert(views(out@) =~= before.push(p.0@));
                        assert(before + (seq![p.0@] + log_entries(rest)) =~= views(out@)
                            + log_entries(rest));
                        assert(image@.skip(at + p.1) =~= rest);
                    }
                    at = at + p.1;
                },
                Err(_) => {
                    proof {
                        assert(log_entries(tail@) =~= Seq::empty());
                        assert(views(out@) + log_entries(tail@) =~= views(out@));
                    }
                    whole = false;
                },
            }
        }
        proof {
            if whole {
                assert(log_entries(image@.skip(at as int)) =~= Seq::empty());
                assert(views(out@) + log_entries(image@.skip(at as int)) =~= views(out@));
            }
        }
        out
    }

    /// Length of what can be read of a log image. What lies behind it was cut off or damaged,
    /// and is to be dropped before more is appended.
    pub fn readable_length(image: &[u8]) -> (r: usize)
        ensures
            r == whole_length(image@),
            r <= image@.len(),
    {
        let mut at: usize = 0;
        let mut whole: bool = true;
        assert(image@.skip(0) =~= image@);
        while whole && at < image.len()
            invariant
                at <= image@.len(),
                whole ==> at + whole_length(image@.skip(at as int)) == whole_length(image@),
                !whole ==> at == whole_length(image@),
            decreases image@.len() - at, whole as int,
        {
            let tail = copy_range(image, at, image.len());
            assert(tail@ =~= image@.skip(at as int));
            match WalEntry::from_bytes(tail.as_slice()) {
                Ok(p) => {
                    assert(image@.skip(at + p.1) =~= tail@.skip(p.1 as int));
                    at = at + p.1;
                },
                Err(_) => {
                    whole = false;
                },
            }
        }
        at
    }

    /// Reads the entries at or above a sequence number.
    pub fn read_from(image: &[u8], start_lsn: u64) -> (r: Vec<WalEntry>)
        ensures
            views(r@) == entries_from(log_entries(image@), start_lsn),
    {
        let all = WriteAheadLog::read_all(image);
        retain_from(all, start_lsn)
    }

    /// The image of the log without the entries below `lsn`.
    pub fn truncate_before(image: &[u8], lsn: u64) -> (r: Vec<u8>)
        ensures
            r@ == frames(entries_from(log_entries(image@), lsn)),
    {
        let kept = WriteAheadLog::read_from(image, lsn);
        let mut out: Vec<u8> = Vec::new();
        let mut i: usize = 0;
        proof {
            assert(views(kept@).skip(0) =~= views(kept@));
            assert(out@ + frames(views(kept@)) =~= frames(views(kept@)));
        }
        while i < kept.len()
            invariant
                i <= kept@.len(),
                out@ + frames(views(kept@).skip(i as int)) == frames(views(kept@)),
            decreases kept@.len() - i,
        {
            let bytes = kept[i].to_bytes();
            let ghost before = out@;
            append_bytes(&mut out, bytes.as_slice());
            proof {
                let t = views(kept@).skip(i as int);
                assert(t[0] == kept@[i as int]@);
                assert(t.skip(1) =~= views(kept@).skip(i + 1));
                assert(before + (frame(t[0]) + frames(t.skip(1))) =~= out@ + frames(t.skip(1)));
            }
            i = i + 1;
        }
        proof {
            assert(out@ + frames(views(kept@).skip(i as int)) =~= out@);
        }
        out
    }

    /// The number of the last entry of a log image.
    pub fn find_last_lsn(image: &[u8]) -> (r: Option<u64>)
        ensures
            r == (if log_entries(image@).len() == 0 {
                None
            } else {
                Some(log_entries(image@).last().lsn)
            }),
    {
        let all = WriteAheadLog::read_all(image);
        if all.len() == 0 {
            None
        } else {
            assert(views(all@).last() == all@[all@.len() - 1]@);
            Some(all[all.len() - 1].lsn)
        }
    }
}

/// What logging an entry outside a transaction does and returns.
pub open spec fn logged(
    before: WriteAheadLog,
    after: WriteAheadLog,
    r: (u64, Vec<u8>),
    now: Timestamp,
    kind: WalEntryType,
    data: Seq<u8>,
) -> bool {
    &&& after.next_lsn() == number_after(before.next_lsn())
    &&& after.syncs() == before.syncs()
    &&& r.0 == before.next_lsn()
    &&& r.1@ == frame(WalView { lsn: r.0, millis: now.millis, kind, tx_id: None, data })
}

fn retain_from(all: Vec<WalEntry>, lsn: u64) -> (r: Vec<WalEntry>)
    ensures
        views(r@) == entries_from(views(all@), lsn),
{
    let mut rest = all;
    let mut out: Vec<WalEntry> = Vec::new();
    let ghost keep = |e: WalView| e.lsn >= lsn;
    let ghost total = views(all@);
    // Entries are moved out back to front, so that none has to be copied.
    while rest.len() > 0
        invariant
            keep == (|e: WalView| e.lsn >= lsn),
            views(rest@) + total.skip(rest@.len() as int) == total,
            rest@.len() <= total.len(),
            views(out@).reverse() == total.skip(rest@.len() as int).filter(keep),
        decreases rest@.len(),
    {
        let ghost n = rest@.len() as int;
        let ghost before = rest@;
        let ghost taken = out@;
        match rest.pop() {
            None => {},
            Some(e) => {
                proof {
                    let tail = total.skip(n);
                    assert(views(before)[n - 1] == e@);
                    assert(total[n - 1] == e@);
                    assert(total.skip(n - 1) =~= seq![e@] + tail);
                    lemma_filter_front(e@, tail, keep);
                    assert(views(rest@) + total.skip(n - 1) =~= total);
                }
                if e.lsn >= lsn {
                    out.push(e);
                    proof {
                        assert(views(out@) =~= views(taken).push(e@));
                        assert(views(out@).reverse() =~= seq![e@] + views(taken).reverse());
                    }
                }
            },
        }
    }
    proof {
        assert(total.skip(0) =~= total);
    }
    let mut r: Vec<WalEntry> = Vec::new();
    let ghost flipped = views(out@);
    proof {
        assert(views(r@) + flipped.reverse() =~= flipped.reverse());
    }
    while out.len() > 0
        invariant
            views(r@) + views(out@).reverse() == flipped.reverse(),
        decreases out@.len(),
    {
        let ghost had = out@;
        let ghost done = r@;
        match out.pop() {
            None => {},
            Some(e) => {
                r.push(e);
                proof {
                    assert(views(had) =~= views(out@).push(e@));
                    assert(views(had).reverse() =~= seq![e@] + views(out@).reverse());
                    assert(views(r@) =~= views(done).push(e@));
                    assert(views(r@) + views(out@).reverse() =~= views(done) + views(had).reverse());
                }
            },
        }
    }
    proof {
        assert(views(r@) + views(out@).reverse() =~= views(r@));
    }
    r
}

proof fn lemma_record_parts(a: Seq<u8>, b: Seq<u8>, c: Seq<u8>, d: Seq<u8>, e: Seq<u8>, f: Seq<u8>)
    requires
        a.len() == 8,
        b.len() == 8,
        c.len() == 4,
        d.len() >= 1,
        e.len() == 8,
    ensures
        ({
            let s = a + b + c + d + e + f;
            let k = 20 + d.len() as int;
            &&& s.len() == 28 + d.len() + f.len()
            &&& s.subrange(0, 8) == a
            &&& s.subrange(8, 16) == b
            &&& s.subrange(16, 20) == c
            &&& s.subrange(20, k) == d
            &&& s.subrange(k, k + 8) == e
            &&& s.subrange(k + 8, k + 8 + f.len()) == f
        }),
{
    let s = a + b + c + d + e + f;
    let k = 20 + d.len() as int;
    assert(s.subrange(0, 8) =~= a);
    assert(s.subrange(8, 16) =~= b);
    assert(s.subrange(16, 20) =~= c);
    assert(s.subrange(20, k) =~= d);
    assert(s.subrange(k, k + 8) =~= e);
    assert(s.subrange(k + 8, k + 8 + f.len()) =~= f);
}

/// A record reads back as the entry that it was made of.
pub proof fn law_record_round_trip(e: WalView)
    requires
        e.data.len() <= u64::MAX,
    ensures
        decode_record(entry_record(e)) == Some(e),
{
    let s = entry_record(e);
    let d = optional_le64(e.tx_id);
    lemma_record_parts(
        le64(e.lsn),
        le64(twos_complement(e.millis)),
        le32(e.kind.tag()),
        d,
        le64(e.data.len() as u64),
        e.data,
    );
    lemma_le64_round_trip(s, 0, e.lsn);
    lemma_le64_round_trip(s, 8, twos_complement(e.millis));
    lemma_le32_round_trip(s, 16, e.kind.tag());
    assert(s[20] == s.subrange(20, 20 + d.len() as int)[0]);
    match e.tx_id {
        None => {
            lemma_le64_round_trip(s, 21, e.data.len() as u64);
        },
        Some(x) => {
            assert(s.subrange(21, 29) =~= s.subrange(20, 29).subrange(1, 9));
            assert(d.subrange(1, 9) =~= le64(x));
            lemma_le64_round_trip(s, 21, x);
            lemma_le64_round_trip(s, 29, e.data.len() as u64);
        },
    }
    assert(record_readable(s));
    assert(read_record(s).4 =~= e.data);
}

/// A frame reads back as its entry, whatever follows it.
pub proof fn law_frame_round_trip(e: WalView, rest: Seq<u8>)
    requires
        framable(e),
    ensures
        parse_frame(frame(e) + rest) == Ok::<(WalView, int), WalError>((e, frame(e).len() as int)),
        frame(e).len() == 8 + entry_record(e).len(),
{
    let rec = entry_record(e);
    let s = frame(e) + rest;
    assert(rec.len() >= e.data.len());
    law_record_round_trip(e);
    let n = rec.len() as u32;
    lemma_frame_parts(le32(n), le32(crc32(rec)), rec, rest);
    lemma_le32_round_trip(s, 0, n);
    lemma_le32_round_trip(s, 4, crc32(rec));
}

proof fn lemma_frame_parts(a: Seq<u8>, b: Seq<u8>, c: Seq<u8>, d: Seq<u8>)
    requires
        a.len() == 4,
        b.len() == 4,
    ensures
        (a + b + c + d).len() == 8 + c.len() + d.len(),
        (a + b + c + d).subrange(0, 4) == a,
        (a + b + c + d).subrange(4, 8) == b,
        (a + b + c + d).subrange(8, 8 + c.len() as int) == c,
{
    let s = a + b + c + d;
    assert(s.subrange(0, 4) =~= a);
    assert(s.subrange(4, 8) =~= b);
    assert(s.subrange(8, 8 + c.len() as int) =~= c);
}

/// A log of appended frames reads back as the appended entries, followed by whatever the
/// tail holds: a torn tail costs no entry before it.
pub proof fn law_log_round_trip(entries: Seq<WalView>, tail: Seq<u8>)
    requires
        forall|i: int| 0 <= i < entries.len() ==> framable(#[trigger] entries[i]),
    ensures
        log_entries(frames(entries) + tail) == entries + log_entries(tail),
    decreases entries.len(),
{
    if entries.len() == 0 {
        assert(frames(entries) + tail =~= tail);
        assert(entries + log_entries(tail) =~= log_entries(tail));
    } else {
        let e = entries[0];
        let more = entries.skip(1);
        let rest = frames(more) + tail;
        assert forall|i: int| 0 <= i < more.len() implies framable(#[trigger] more[i]) by {
            assert(more[i] == entries[i + 1]);
        }
        law_log_round_trip(more, tail);
        assert(framable(entries[0]));
        law_frame_round_trip(e, rest);
        let s = frames(entries) + tail;
        assert(s =~= frame(e) + rest);
        assert(s.skip(frame(e).len() as int) =~= rest);
        assert(log_entries(s) == seq![e] + log_entries(rest));
        assert(seq![e] + (more + log_entries(tail)) =~= entries + log_entries(tail));
    }
}

/// Whatever a log reads back can be framed again.
pub proof fn lemma_log_entries_framable(s: Seq<u8>)
    ensures
        forall|i: int|
            0 <= i < log_entries(s).len() ==> framable(#[trigger] log_entries(s)[i]),
    decreases s.len(),
{
    if s.len() > 0 {
        match parse_frame(s) {
            Ok(p) => {
                let rec = s.subrange(8, 8 + read_le32(s, 0));
                let e = p.0;
                let d = optional_le64(e.tx_id);
                assert(decode_record(rec) == Some(e));
                lemma_record_parts(
                    le64(e.lsn),
                    le64(twos_complement(e.millis)),
                    le32(e.kind.tag()),
                    d,
                    le64(e.data.len() as u64),
                    e.data,
                );
                assert(entry_record(e).len() <= rec.len());
                lemma_log_entries_framable(s.skip(p.1));
                let rest = log_entries(s.skip(p.1));
                assert forall|i: int| 0 <= i < log_entries(s).len() implies framable(
                    #[trigger] log_entries(s)[i],
                ) by {
                    if i > 0 {
                        assert(log_entries(s)[i] == rest[i - 1]);
                    }
                }
            },
            Err(_) => {},
        }
    }
}

/// A truncated log reads back as the entries at or above the given number.
pub proof fn law_truncation(image: Seq<u8>, lsn: u64)
    ensures
        log_entries(frames(entries_from(log_entries(image), lsn))) == entries_from(
            log_entries(image),
            lsn,
        ),
{
    let all = log_entries(image);
    let kept = entries_from(all, lsn);
    lemma_log_entries_framable(image);
    assert forall|i: int| 0 <= i < kept.len() implies framable(#[trigger] kept[i]) by {
        lemma_filter_member(all, |e: WalView| e.lsn >= lsn, i);
        let j = choose|j: int| 0 <= j < all.len() && all[j] == kept[i];
        assert(framable(all[j]));
    }
    law_log_round_trip(kept, Seq::empty());
    assert(frames(kept) + Seq::<u8>::empty() =~= frames(kept));
    assert(log_entries(Seq::empty()) =~= Seq::<WalView>::empty());
    assert(kept + Seq::<WalView>::empty() =~= kept);
}

/// Whether a change of one byte changes the checksum of a record.
spec fn guarded(rec: Seq<u8>) -> bool {
    forall|other: Seq<u8>| differ_in_one(rec, other) ==> #[trigger] crc32(other) != crc32(rec)
}

proof fn lemma_changed_frame(e: WalView, k: int, x: u8)
    requires
        framable(e),
        guarded(entry_record(e)),
        4 <= k < frame(e).len(),
        x != frame(e)[k],
    ensures
        parse_frame(frame(e).update(k, x)) == Err::<(WalView, int), WalError>(
            WalError::ChecksumMismatch,
        ),
{
    let rec = entry_record(e);
    let b = frame(e);
    let s = b.update(k, x);
    let n = rec.len() as u32;
    let none = Seq::<u8>::empty();
    law_frame_round_trip(e, none);
    assert(b + none =~= b);
    lemma_frame_parts(le32(n), le32(crc32(rec)), rec, none);
    assert(s.subrange(0, 4) =~= le32(n));
    lemma_le32_round_trip(s, 0, n);
    let found = s.subrange(8, 8 + n as int);
    if k < 8 {
        assert(found =~= rec);
        assert(read_le32(b, 4) == crc32(rec)) by {
            assert(b.subrange(4, 8) =~= le32(crc32(rec)));
            lemma_le32_round_trip(b, 4, crc32(rec));
        }
        assert(read_le32(s, 4) != read_le32(b, 4)) by {
            reveal(read_le32);
        }
    } else {
        assert(found =~= rec.update(k - 8, x));
        assert(rec[k - 8] == b[k]);
        assert(found[k - 8] == x);
        assert(differ_in_one(rec, found));
        assert(s.subrange(4, 8) =~= le32(crc32(rec)));
        lemma_le32_round_trip(s, 4, crc32(rec));
    }
}

proof fn lemma_parse_prefix(s: Seq<u8>, t: Seq<u8>, e: WalView, n: int)
    requires
        parse_frame(s) == Ok::<(WalView, int), WalError>((e, n)),
        0 <= n <= s.len(),
        n <= t.len(),
        s.take(n) == t.take(n),
    ensures
        parse_frame(t) == Ok::<(WalView, int), WalError>((e, n)),
{
    assert(n >= 8);
    let a = s.take(n);
    let b = t.take(n);
    assert forall|i: int| 0 <= i < n implies #[trigger] s[i] == t[i] by {
        assert(a[i] == s[i]);
        assert(b[i] == t[i]);
    }
    assert(s[0] == t[0] && s[1] == t[1] && s[2] == t[2] && s[3] == t[3]);
    assert(s[4] == t[4] && s[5] == t[5] && s[6] == t[6] && s[7] == t[7]);
    assert(read_le32(s, 0) == read_le32(t, 0) && read_le32(s, 4) == read_le32(t, 4)) by {
        reveal(read_le32);
    }
    assert(s.subrange(8, n) =~= t.subrange(8, n));
}

proof fn lemma_whole_length(s: Seq<u8>)
    ensures
        0 <= whole_length(s) <= s.len(),
    decreases s.len(),
{
    if s.len() > 0 {
        match parse_frame(s) {
            Ok(p) if 0 < p.1 <= s.len() => {
                lemma_whole_length(s.skip(p.1));
            },
            _ => {},
        }
    }
}

/// What can be read of a log stays readable when the rest is dropped and something else is put
/// behind it.
pub proof fn law_readable_part_is_kept(image: Seq<u8>, tail: Seq<u8>)
    ensures
        0 <= whole_length(image) <= image.len(),
        log_entries(image.take(whole_length(image)) + tail) == log_entries(image) + log_entries(
            tail,
        ),
    decreases image.len(),
{
    let w = whole_length(image);
    lemma_whole_length(image);
    let all = image.take(w) + tail;
    if w == 0 {
        assert(all =~= tail);
        assert(log_entries(image) =~= Seq::<WalView>::empty()) by {
            if image.len() > 0 {
                match parse_frame(image) {
                    Ok(p) if 0 < p.1 <= image.len() => {
                        lemma_whole_length(image.skip(p.1));
                    },
                    _ => {},
                }
            }
        }
        assert(log_entries(image) + log_entries(tail) =~= log_entries(tail));
    } else {
        let p = parse_frame(image)->Ok_0;
        let rest = image.skip(p.1);
        lemma_whole_length(rest);
        law_readable_part_is_kept(rest, tail);
        assert(image.take(p.1) =~= all.take(p.1));
        lemma_parse_prefix(image, all, p.0, p.1);
        assert(all.skip(p.1) =~= rest.take(w - p.1) + tail);
        assert(seq![p.0] + (log_entries(rest) + log_entries(tail)) =~= seq![p.0] + log_entries(rest)
            + log_entries(tail));
    }
}

/// Entries that are appended to a log whose unreadable rest was dropped are read back behind
/// those that were there.
pub proof fn law_recovered_log_takes_entries(image: Seq<u8>, entries: Seq<WalView>)
    requires
        forall|i: int| 0 <= i < entries.len() ==> framable(#[trigger] entries[i]),
    ensures
        log_entries(image.take(whole_length(image)) + frames(entries)) == log_entries(image)
            + entries,
{
    law_readable_part_is_kept(image, frames(entries));
    law_log_round_trip(entries, Seq::empty());
    assert(frames(entries) + Seq::<u8>::empty() =~= frames(entries));
    assert(log_entries(Seq::empty()) =~= Seq::<WalView>::empty());
    assert(entries + Seq::<WalView>::empty() =~= entries);
}

/// A proper prefix of a frame is refused: it is too short for a header, or cut off.
pub proof fn law_cut_frame_is_refused(e: WalView, n: int)
    requires
        framable(e),
        0 <= n < frame(e).len(),
    ensures
        parse_frame(frame(e).take(n)) == Err::<(WalView, int), WalError>(
            if n < 8 {
                WalError::TooShort
            } else {
                WalError::Truncated
            },
        ),
{
    let s = frame(e).take(n);
    let rec = entry_record(e);
    if n >= 8 {
        let len = rec.len() as u32;
        assert(s.subrange(0, 4) =~= le32(len));
        lemma_le32_round_trip(s, 0, len);
    }
}

/// A log whose last frame was cut off while it was written still holds all entries before it.
pub proof fn law_torn_log_keeps_whole_entries(entries: Seq<WalView>, e: WalView, n: int)
    requires
        forall|i: int| 0 <= i < entries.len() ==> framable(#[trigger] entries[i]),
        framable(e),
        0 <= n < frame(e).len(),
    ensures
        log_entries(frames(entries) + frame(e).take(n)) == entries,
{
    law_cut_frame_is_refused(e, n);
    law_corrupt_frame_ends_the_log(entries, frame(e).take(n));
}

/// An entry whose payload was changed so that its checksum no longer matches ends the log.
pub proof fn law_corrupt_frame_ends_the_log(entries: Seq<WalView>, tail: Seq<u8>)
    requires
        forall|i: int| 0 <= i < entries.len() ==> framable(#[trigger] entries[i]),
        parse_frame(tail) is Err,
    ensures
        log_entries(frames(entries) + tail) == entries,
{
    law_log_round_trip(entries, tail);
    assert(log_entries(tail) =~= Seq::<WalView>::empty());
    assert(entries + Seq::<WalView>::empty() =~= entries);
}

/// Reading from a sequence number on gives every entry at or above it and none below.
pub proof fn law_entries_from(entries: Seq<WalView>, lsn: u64, i: int)
    ensures
        0 <= i < entries.len() && entries[i].lsn >= lsn ==> entries_from(entries, lsn).contains(
            entries[i],
        ),
        forall|k: int|
            0 <= k < entries_from(entries, lsn).len() ==> (#[trigger] entries_from(
                entries,
                lsn,
            )[k]).lsn >= lsn && entries.contains(entries_from(entries, lsn)[k]),
        lsn == 0 ==> entries_from(entries, lsn) == entries,
    decreases entries.len(),
{
    reveal(Seq::filter);
    let kept = entries_from(entries, lsn);
    if entries.len() > 0 {
        let head = entries.drop_last();
        let n = entries.len() - 1;
        let before = entries_from(head, lsn);
        law_entries_from(head, lsn, i);
        assert(kept == if entries[n].lsn >= lsn {
            before.push(entries[n])
        } else {
            before
        });
        assert forall|k: int| 0 <= k < kept.len() implies (#[trigger] kept[k]).lsn >= lsn
            && entries.contains(kept[k]) by {
            if k < before.len() {
                let j = choose|j: int| 0 <= j < head.len() && head[j] == before[k];
                assert(entries[j] == kept[k]);
            } else {
                assert(entries[n] == kept[k]);
            }
        }
        if 0 <= i < n && entries[i].lsn >= lsn {
            assert(head[i] == entries[i]);
            let k = choose|k: int| 0 <= k < before.len() && before[k] == entries[i];
            assert(kept[k] == entries[i]);
        }
        if i == n && entries[i].lsn >= lsn {
            assert(kept[before.len() as int] == entries[i]);
        }
        if lsn == 0 {
            assert(kept =~= entries);
        }
    }
}

/// Sequence numbers count up by one, and start again at 0 when there is no greater one.
pub proof fn law_numbers_count_up(lsn: u64)
    ensures
        number_after(lsn) == (lsn + 1) % 0x1_0000_0000_0000_0000,
{
}

/// Where the fields of an entry stand in its record, and what is written for its time and kind:
/// a time keeps its 64 bits, and the kinds are numbered from 0.
pub proof fn law_record_fields(e: WalView)
    ensures
        entry_record(e).subrange(0, 8) == le64(e.lsn),
        entry_record(e).subrange(8, 16) == le64((e.millis as int % 0x1_0000_0000_0000_0000) as u64),
        entry_record(e).subrange(16, 20) == le32(e.kind.tag()),
        entry_record(e)[20] == if e.tx_id is Some {
            1
        } else {
            0int
        },
        entry_record(e).len() == 29 + e.data.len() + if e.tx_id is Some {
            8
        } else {
            0int
        },
        entry_record(e).subrange(entry_record(e).len() - e.data.len(), entry_record(e).len() as int)
            == e.data,
        e.tx_id is Some ==> entry_record(e).subrange(21, 29) == le64(e.tx_id->0),
{
    broadcast use crate::codec::group_codec;

    let r = entry_record(e);
    assert(twos_complement(e.millis) == (e.millis as int % 0x1_0000_0000_0000_0000) as u64);
    assert(r.subrange(0, 8) =~= le64(e.lsn));
    assert(r.subrange(8, 16) =~= le64(twos_complement(e.millis)));
    assert(r.subrange(16, 20) =~= le32(e.kind.tag()));
    assert(r.subrange(r.len() - e.data.len(), r.len() as int) =~= e.data);
    if e.tx_id is Some {
        assert(r.subrange(21, 29) =~= le64(e.tx_id->0));
    }
}

/// The kinds of entries are numbered in their order.
pub proof fn law_kinds_are_numbered()
    ensures
        ({
            let kinds = seq![
                WalEntryType::InsertNode,
                WalEntryType::UpdateNode,
                WalEntryType::DeleteNode,
                WalEntryType::InsertEdge,
                WalEntryType::DeleteEdge,
                WalEntryType::TxBegin,
                WalEntryType::TxCommit,
                WalEntryType::TxRollback,
                WalEntryType::Checkpoint,
            ];
            forall|i: int|
                0 <= i < kinds.len() ==> (#[trigger] kinds[i]).tag() == i
                    && WalEntryType::spec_from_tag(i as u32) == Some(kinds[i])
        }),
        forall|tag: u32| tag >= 9 ==> (#[trigger] WalEntryType::spec_from_tag(tag)) is None,
{
}

} // verus!
