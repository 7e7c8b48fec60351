//! Write-ahead log records and the audit decisions taken on them.

use vstd::prelude::*;
use crate::error::HashDigest;
use crate::bytes::{le_value, read_le, bytes_equal};

verus! {

/// Length of the log header skipped before the first record.
pub const WAL_HEADER_LEN: usize = 64;

/// Status byte of a committed record.
pub const WAL_STATUS_COMMITTED: u8 = 0x02;

/// Length of a record's fixed prefix: status, batch index, data length.
pub const WAL_PREFIX_LEN: usize = 13;

/// Length of a record besides its data: prefix, anchor, checksum.
pub const WAL_FRAME_LEN: usize = 49;

/// A record of the log, located in the log's bytes.
#[derive(Clone, Copy, Debug, PartialEq, Eq, Structural)]
pub struct WalRecord {
    /// The status byte.
    pub status: u8,
    /// The batch index.
    pub batch_index: u64,
    /// Where the batch data starts.
    pub data_start: usize,
    /// Length of the batch data.
    pub data_len: usize,
    /// Where the 32-byte anchor starts.
    pub anchor_start: usize,
    /// Where the next record starts.
    pub next_offset: usize,
}

/// The record at `offset` of the log `wal`: none when the fixed prefix or
/// the whole record (prefix, data, 32-byte anchor, 4-byte checksum) runs
/// past the end.
pub open spec fn record_at(wal: Seq<u8>, offset: nat) -> Option<WalRecord> {
    if offset + 13 > wal.len() {
        None
    } else {
        let data_len = le_value(wal.subrange(offset + 9int, offset + 13int));
        if offset + 49 + data_len > wal.len() {
            None
        } else {
            Some(WalRecord {
                status: wal[offset as int],
                batch_index: le_value(wal.subrange(offset + 1int, offset + 9int)) as u64,
                data_start: (offset + 13) as usize,
                data_len: data_len as usize,
                anchor_start: (offset + 13 + data_len) as usize,
                next_offset: (offset + 49 + data_len) as usize,
            })
        }
    }
}

/// Reads the record at `offset`.
pub fn parse_wal_record(wal: &[u8], offset: usize) -> (r: Option<WalRecord>)
    ensures
        r == record_at(wal@, offset as nat),
{
    if offset > wal.len() || wal.len() - offset < WAL_PREFIX_LEN {
        return None;
    }
    let status = wal[offset];
    let batch_index = read_le(wal, offset + 1, 8);
    let data_len = read_le(wal, offset + 9, 4);
    proof {
        crate::bytes::lemma_le_value_bound(wal@.subrange(offset + 9, offset + 13));
        reveal_with_fuel(crate::bytes::pow256, 5);
    }
    let rest = wal.len() - offset;
    if (rest as u64) < 49 || data_len > (rest as u64) - 49 {
        return None;
    }
    let dl = data_len as usize;
    Some(WalRecord {
        status,
        batch_index,
        data_start: offset + 13,
        data_len: dl,
        anchor_start: offset + 13 + dl,
        next_offset: offset + 49 + dl,
    })
}

/// What the audit does with a record.
#[derive(Clone, Copy, Debug, PartialEq, Eq, Structural)]
pub enum RecordAction {
    /// Not committed: skipped.
    Skip,
    /// Committed out of order: counted as corrupted.
    Corrupt,
    /// Committed in order: its anchor must be checked against the chained
    /// hash of its data.
    CheckAnchor,
}

/// The action for a record when the chain expects `expected_index` next.
pub open spec fn action_for(record: WalRecord, expected_index: u64) -> RecordAction {
    if record.status != WAL_STATUS_COMMITTED {
        RecordAction::Skip
    } else if record.batch_index != expected_index {
        RecordAction::Corrupt
    } else {
        RecordAction::CheckAnchor
    }
}

/// Decides what the audit does with `record`.
pub fn record_action(record: &WalRecord, expected_index: u64) -> (a: RecordAction)
    ensures
        a == action_for(*record, expected_index),
{
    if record.status != WAL_STATUS_COMMITTED {
        RecordAction::Skip
    } else if record.batch_index != expected_index {
        RecordAction::Corrupt
    } else {
        RecordAction::CheckAnchor
    }
}

/// Counts of verified and corrupted records.
#[derive(Clone, Copy, Debug, PartialEq, Eq, Structural)]
pub struct AuditTally {
    /// Records whose anchor matched.
    pub verified: u64,
    /// Records out of order or with a wrong anchor.
    pub corrupted: u64,
}

impl AuditTally {
    /// No record seen.
    pub fn new() -> (t: Self)
        ensures
            t.verified == 0 && t.corrupted == 0,
    {
        AuditTally { verified: 0, corrupted: 0 }
    }

    /// Counts a corrupted record.
    pub fn record_corrupt(&mut self)
        requires
            old(self).corrupted < u64::MAX,
        ensures
            final(self).corrupted == old(self).corrupted + 1,
            final(self).verified == old(self).verified,
    {
        self.corrupted = self.corrupted + 1;
    }

    /// Settles a record whose anchor is checked: the record is verified when
    /// its stored anchor equals `computed`, the chained hash of its data,
    /// and corrupted otherwise. Returns whether it was verified.
    pub fn settle_anchor(&mut self, wal: &[u8], record: &WalRecord, computed: &HashDigest) -> (ok: bool)
        requires
            record.anchor_start + 32 <= wal@.len(),
            old(self).verified < u64::MAX,
            old(self).corrupted < u64::MAX,
        ensures
            ok == (wal@.subrange(record.anchor_start as int, record.anchor_start + 32) == computed@),
            ok ==> final(self).verified == old(self).verified + 1 && final(self).corrupted == old(self).corrupted,
            !ok ==> final(self).corrupted == old(self).corrupted + 1 && final(self).verified == old(self).verified,
    {
        let mut anchor: Vec<u8> = Vec::new();
        let mut i: usize = 0;
        while i < 32
            invariant
                record.anchor_start + 32 <= wal@.len(),
                wal@.len() == wal.len(),
                0 <= i <= 32,
                anchor@ == wal@.subrange(record.anchor_start as int, record.anchor_start + i),
            decreases 32 - i,
        {
            anchor.push(wal[record.anchor_start + i]);
            assert(anchor@ =~= wal@.subrange(record.anchor_start as int, record.anchor_start + i + 1));
            i = i + 1;
        }
        let ok = bytes_equal(anchor.as_slice(), computed.as_slice());
        if ok {
            self.verified = self.verified + 1;
        } else {
            self.corrupted = self.corrupted + 1;
        }
        ok
    }
}

/// Whether a record is committed.
pub open spec fn committed(record: WalRecord) -> bool {
    record.status == WAL_STATUS_COMMITTED
}

/// Where a sweep of the log stands: the offset of the next record and the
/// counts so far.
#[derive(Clone, Copy, Debug, PartialEq, Eq, Structural)]
pub struct SweepState {
    /// Offset of the next record.
    pub offset: usize,
    /// Verified and corrupted records so far.
    pub tally: AuditTally,
}

/// The state at the start of a sweep: after the log header, nothing counted.
pub fn sweep_start() -> (st: SweepState)
    ensures
        st.offset == WAL_HEADER_LEN,
        st.tally.verified == 0 && st.tally.corrupted == 0,
{
    SweepState { offset: WAL_HEADER_LEN, tally: AuditTally::new() }
}

impl SweepState {
    /// One step of the sweep over the record at the current offset. The
    /// chain expects `expected_index` next; `computed` is its chained hash of
    /// the record's data, asked for only when the record's anchor is
    /// checked. Counts the record, moves to the next one, and returns
    /// whether the chain is to be extended with the record: exactly when
    /// it is committed in order and its anchor matches.
    pub fn step(&mut self, wal: &[u8], record: &WalRecord, expected_index: u64, computed: Option<HashDigest>) -> (extend: bool)
        requires
            record_at(wal@, old(self).offset as nat) == Some(*record),
            action_for(*record, expected_index) == RecordAction::CheckAnchor ==> computed is Some,
            old(self).tally.verified < u64::MAX,
            old(self).tally.corrupted < u64::MAX,
        ensures
            final(self).offset == record.next_offset,
            final(self).offset > old(self).offset,
            extend == (action_for(*record, expected_index) == RecordAction::CheckAnchor
                && wal@.subrange(record.anchor_start as int, record.anchor_start + 32) == computed->0@),
            extend ==> final(self).tally.verified == old(self).tally.verified + 1
                && final(self).tally.corrupted == old(self).tally.corrupted,
            !extend && committed(*record) ==> final(self).tally.verified == old(self).tally.verified
                && final(self).tally.corrupted == old(self).tally.corrupted + 1,
            !committed(*record) ==> final(self).tally == old(self).tally,
            final(self).tally.verified + final(self).tally.corrupted
                == old(self).tally.verified + old(self).tally.corrupted + if committed(*record) { 1int } else { 0int },
    {
        proof {
            let data_len = le_value(wal@.subrange(old(self).offset + 9int, old(self).offset + 13int));
            assert(wal@.len() == wal.len());
            assert(old(self).offset + 49 + data_len <= wal@.len());
            assert(record.next_offset == old(self).offset + 49 + data_len);
        }
        let mut extend = false;
        match record_action(record, expected_index) {
            RecordAction::Skip => {},
            RecordAction::Corrupt => {
                self.tally.record_corrupt();
            },
            RecordAction::CheckAnchor => {
                let hash = computed.unwrap();
                extend = self.tally.settle_anchor(wal, record, &hash);
            },
        }
        self.offset = record.next_offset;
        extend
    }
}

/// The number of committed records in `records`.
pub open spec fn committed_count(records: Seq<WalRecord>) -> nat
    decreases records.len(),
{
    if records.len() == 0 {
        0
    } else {
        committed_count(records.drop_last()) + if committed(records.last()) { 1nat } else { 0nat }
    }
}

/// Law: over a sweep that steps through `records` (`states[i + 1]` is
/// `states[i]` after the step over `records[i]`), every committed record is
/// counted once, as verified or as corrupted, and no other record is.
pub proof fn law_sweep_counts_committed(states: Seq<SweepState>, records: Seq<WalRecord>)
    requires
        states.len() == records.len() + 1,
        forall|i: int| 0 <= i < records.len() ==> #[trigger] states[i + 1].tally.verified + states[i + 1].tally.corrupted
            == states[i].tally.verified + states[i].tally.corrupted + if committed(records[i]) { 1int } else { 0int },
    ensures
        states.last().tally.verified + states.last().tally.corrupted
            == states[0].tally.verified + states[0].tally.corrupted + committed_count(records),
{
    lemma_sweep_prefix(states, records, records.len() as int);
    assert(records.subrange(0, records.len() as int) =~= records);
}

proof fn lemma_sweep_prefix(states: Seq<SweepState>, records: Seq<WalRecord>, n: int)
    requires
        states.len() == records.len() + 1,
        0 <= n <= records.len(),
        forall|i: int| 0 <= i < records.len() ==> #[trigger] states[i + 1].tally.verified + states[i + 1].tally.corrupted
            == states[i].tally.verified + states[i].tally.corrupted + if committed(records[i]) { 1int } else { 0int },
    ensures
        states[n].tally.verified + states[n].tally.corrupted
            == states[0].tally.verified + states[0].tally.corrupted + committed_count(records.subrange(0, n)),
    decreases n,
{
    if n > 0 {
        lemma_sweep_prefix(states, records, n - 1);
        assert(records.subrange(0, n).drop_last() =~= records.subrange(0, n - 1));
        let i = n - 1;
        assert(states[i + 1].tally.verified + states[i + 1].tally.corrupted
            == states[i].tally.verified + states[i].tally.corrupted + if committed(records[i]) { 1int } else { 0int });
    }
}

/// Law: a record whose status byte is not 2 (committed) is skipped; a
/// committed record is checked against its anchor exactly when its batch
/// index is the one the chain expects, and counted as corrupted otherwise.
pub proof fn law_record_verdict(record: WalRecord, expected_index: u64)
    ensures
        action_for(record, expected_index) == RecordAction::Skip <==> record.status != 2,
        action_for(record, expected_index) == RecordAction::CheckAnchor
            <==> record.status == 2 && record.batch_index == expected_index,
        action_for(record, expected_index) == RecordAction::Corrupt
            <==> record.status == 2 && record.batch_index != expected_index,
{
}

} // verus!
