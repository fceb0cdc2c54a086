//! The key table together with its log and snapshots.
//!
//! A commit goes through three steps, with the commit lock held: the transaction is checked and its
//! log record framed, the frame is written and fsynced by the caller, and only then the table
//! changes. Recovery loads the snapshot and replays the log behind it.

use crate::error::{StoreError, StoreFault};
use crate::frame;
use crate::frame::FrameFault;
use crate::layout;
use crate::record;
use crate::record::LogRecord;
use crate::snapshot;
use crate::table;
use crate::table::{Entries, Limits, Op, OpView, Pending, Table, TableView, TxnOutcome};
use crate::wal;
use crate::wal::{AppendPlan, Recovery, SegmentFile, SegmentView, Stop, Wal};
use vstd::prelude::*;

verus! {

/// A store: its table, the accounting of its log, and its settings.
#[derive(Debug)]
pub struct Engine {
    pub table: Table,
    pub wal: Wal,
    pub limits: Limits,
    /// Log size in bytes that triggers a compaction, and the size at which segments are rotated.
    pub compact_threshold: u64,
    pub compacting: bool,
}

/// The table that recovery starts from: what the snapshot's file holds, or nothing.
pub open spec fn base_table(path: Seq<char>, file: Option<Seq<u8>>) -> Result<
    TableView,
    StoreFault,
> {
    match file {
        None => Ok(table::start_table(None)),
        Some(data) => match snapshot::load_bytes(path, data) {
            Ok(s) => Ok(table::start_table(Some(s))),
            Err(e) => Err(e),
        },
    }
}

/// What recovery makes of the files of a store.
pub open spec fn recovered(
    dir: Seq<char>,
    snapshot_path: Seq<char>,
    snapshot_file: Option<Seq<u8>>,
    segs: Seq<SegmentView>,
) -> Result<Recovery, StoreFault> {
    match base_table(snapshot_path, snapshot_file) {
        Ok(start) => wal::recover(dir, segs, segs.len() as int, start),
        Err(e) => Err(e),
    }
}

/// The view of an optional file.
pub open spec fn file_view(f: Option<Vec<u8>>) -> Option<Seq<u8>> {
    match f {
        Some(data) => Some(data@),
        None => None,
    }
}

impl Engine {
    /// The table and the log's accounting are well-formed.
    pub open spec fn wf(&self) -> bool {
        self.table.wf() && self.wal@.wf()
    }

    /// Opens a store from its files: the snapshot, if there is one, and the segments of the log in
    /// the order of their indices. Gives the records of the log, too.
    pub fn open(
        dir: &str,
        snapshot_path: &str,
        snapshot_file: Option<Vec<u8>>,
        segments: Vec<SegmentFile>,
        limits: Limits,
        compact_threshold: u64,
    ) -> (r: Result<(Engine, Vec<LogRecord>), StoreError>)
        requires
            wal::ascending(wal::segment_views(segments@)),
            wal::segment_bytes(wal::segment_views(segments@)) <= u64::MAX,
        ensures
            ({
                let rec = recovered(
                    dir@,
                    snapshot_path@,
                    file_view(snapshot_file),
                    wal::segment_views(segments@),
                );
                match r {
                    Ok((e, records)) => {
                        &&& rec is Ok
                        &&& e.wf()
                        &&& e.table@ == rec->Ok_0.table
                        &&& e.wal@ == wal::opened(dir@, rec->Ok_0.segments)
                        &&& record::record_views(records@) == rec->Ok_0.records
                        &&& e.limits == limits
                        &&& e.compact_threshold == compact_threshold
                        &&& !e.compacting
                    },
                    Err(e) => rec == Err::<Recovery, _>(e@),
                }
            }),
    {
        let snapshot = match snapshot::load(snapshot_path, snapshot_file) {
            Ok(s) => s,
            Err(e) => return Err(e),
        };
        let start = Table::new(snapshot);
        match Wal::open(dir, segments, start) {
            Ok((wal, records, table)) => Ok(
                (Engine { table, wal, limits, compact_threshold, compacting: false }, records),
            ),
            Err(e) => Err(e),
        }
    }

    /// The first step of a commit: checks a transaction and plans the append of its record.
    pub fn prepare(&self, ops: &Vec<Op>) -> (r: Result<(Pending, AppendPlan), StoreError>)
        requires
            self.wf(),
            self.table@.lsn < u64::MAX,
        ensures
            match r {
                Ok((pending, plan)) => {
                    let lsn = (self.table@.lsn + 1) as u64;
                    let views = table::op_views(ops@);
                    &&& table::txn_fault(self.limits, self.table@.entries, views) is None
                    &&& pending.record@ == table::txn_record(lsn, views)
                    &&& pending.outcome.lsn == lsn
                    &&& table::effect_views(pending.outcome.effects@) == table::txn_effects(
                        self.table@.entries,
                        lsn,
                        views,
                    )
                    &&& plan.frame@ == wal::record_frame(table::txn_record(lsn, views))
                    &&& plan.rotate == wal::must_rotate(
                        self.wal@,
                        plan.frame@.len() as int,
                        self.compact_threshold,
                    )
                    &&& plan.sealed_end_lsn == self.table@.lsn
                },
                Err(e) => table::txn_fault(
                    self.limits,
                    self.table@.entries,
                    table::op_views(ops@),
                ) == Some(e@),
            },
    {
        match self.table.prepare(&self.limits, ops) {
            Ok(pending) => match self.wal.append(&pending.record, self.compact_threshold) {
                Ok(plan) => Ok((pending, plan)),
                Err(e) => Err(e),
            },
            Err(e) => Err(e),
        }
    }

    /// The last step of a commit, once the frame of its record is on disk. Gives the outcome, and
    /// whether the log has reached the size that triggers a compaction while none is running.
    pub fn commit(&mut self, pending: Pending, frame_len: u64) -> (r: (TxnOutcome, bool))
        requires
            old(self).wf(),
            pending.record@.lsn == old(self).table@.lsn + 1,
            old(self).wal@.total_bytes + frame_len <= u64::MAX,
        ensures
            final(self).wf(),
            r.0 == pending.outcome,
            table::replay_one(old(self).table@, pending.record@) == Ok::<_, StoreFault>(
                final(self).table@,
            ),
            final(self).wal@ == wal::appended(old(self).wal@, frame_len as int),
            final(self).limits == old(self).limits,
            final(self).compact_threshold == old(self).compact_threshold,
            final(self).compacting == old(self).compacting,
            r.1 == (!old(self).compacting && final(self).wal@.total_bytes >= old(
                self,
            ).compact_threshold),
    {
        self.wal.record_append(frame_len);
        let outcome = self.table.commit(pending);
        let due: bool = !self.compacting && self.wal.total_bytes() >= self.compact_threshold;
        (outcome, due)
    }

    /// Starts a compaction, unless one is running.
    pub fn begin_compaction(&mut self) -> (r: Result<(), StoreError>)
        ensures
            match r {
                Ok(_) => !old(self).compacting,
                Err(e) => old(self).compacting && e@ == StoreFault::CompactionInProgress,
            },
            *final(self) == (Engine { compacting: true, ..*old(self) }),
    {
        if self.compacting {
            return Err(StoreError::CompactionInProgress);
        }
        self.compacting = true;
        Ok(())
    }

    /// Notes that no compaction is running any more.
    pub fn end_compaction(&mut self)
        ensures
            *final(self) == (Engine { compacting: false, ..*old(self) }),
    {
        self.compacting = false;
    }
}

/// Durability: a transaction whose record was appended to the log's last segment, which ended
/// cleanly, is there after recovery, as the last one and as a whole. (A record too long for a frame
/// cannot be read back.)
pub proof fn lemma_committed_survives(
    dir: Seq<char>,
    segs: Seq<SegmentView>,
    start: TableView,
    limits: Limits,
    ops: Seq<OpView>,
)
    requires
        segs.len() > 0,
        wal::scan_from(segs.last().data, 0).stop == Stop::Frame(FrameFault::Eof),
        wal::recover(dir, segs, segs.len() as int, start) is Ok,
        ({
            let t = wal::recover(dir, segs, segs.len() as int, start)->Ok_0.table;
            &&& t.lsn < u64::MAX
            &&& t.snapshot_lsn <= t.lsn
            &&& table::txn_fault(limits, t.entries, ops) is None
            &&& wal::fits(table::txn_record((t.lsn + 1) as u64, ops))
        }),
    ensures
        ({
            let t = wal::recover(dir, segs, segs.len() as int, start)->Ok_0.table;
            let rec = table::txn_record((t.lsn + 1) as u64, ops);
            let after = wal::recover(
                dir,
                segs.update(
                    segs.len() - 1,
                    SegmentView { data: segs.last().data + wal::record_frame(rec), ..segs.last() },
                ),
                segs.len() as int,
                start,
            );
            &&& after is Ok
            &&& table::replay_one(t, rec) == Ok::<_, StoreFault>(after->Ok_0.table)
        }),
{
    let t = wal::recover(dir, segs, segs.len() as int, start)->Ok_0.table;
    wal::lemma_append_recovers(dir, segs, start, table::txn_record((t.lsn + 1) as u64, ops));
}

/// Every entry of a table fits into a frame of a snapshot.
pub open spec fn snapshot_fits(entries: Entries) -> bool {
    &&& entries.dom().finite()
    &&& entries.dom().len() <= u64::MAX
    &&& forall|k: Seq<u8>| #[trigger]
        entries.dom().contains(k) ==> layout::entry_layout(snapshot::entry_of(entries, k)).len()
            <= frame::MAX_PAYLOAD_LEN
}

/// Compaction loses nothing: a store whose snapshot is replaced by a later one, which holds the
/// table after the first `n` records of the log, recovers what it recovered before, with its log as
/// it was. (Segments that the new snapshot covers may then go:
/// [`wal::lemma_covered_segments_may_go`]. An entry too long for a frame cannot be read back.)
pub proof fn lemma_compaction_recovers(
    dir: Seq<char>,
    path: Seq<char>,
    file: Option<Seq<u8>>,
    segs: Seq<SegmentView>,
    n: int,
)
    requires
        recovered(dir, path, file, segs) is Ok,
        0 <= n <= recovered(dir, path, file, segs)->Ok_0.records.len(),
        ({
            let records = recovered(dir, path, file, segs)->Ok_0.records;
            let taken = table::replay_all(base_table(path, file)->Ok_0, records.take(n));
            taken is Ok ==> snapshot_fits(taken->Ok_0.entries)
        }),
    ensures
        ({
            let before = recovered(dir, path, file, segs)->Ok_0;
            let taken = table::replay_all(base_table(path, file)->Ok_0, before.records.take(n));
            &&& taken is Ok
            &&& ({
                let after = recovered(
                    dir,
                    path,
                    Some(snapshot::snapshot_bytes(taken->Ok_0.lsn, taken->Ok_0.entries)),
                    segs,
                );
                &&& after is Ok
                &&& after->Ok_0.table.entries == before.table.entries
                &&& after->Ok_0.table.lsn == before.table.lsn
                &&& after->Ok_0.table.snapshot_lsn == taken->Ok_0.lsn
            })
        }),
{
    let start = base_table(path, file)->Ok_0;
    let before = recovered(dir, path, file, segs)->Ok_0;
    wal::lemma_later_snapshot_recovers(dir, segs, start, n);
    let taken = table::replay_all(start, before.records.take(n))->Ok_0;
    snapshot::lemma_snapshot_round_trip(path, taken.lsn, taken.entries);
    let snap = table::start_table(Some((taken.lsn, taken.entries)));
    wal::lemma_recover_keeps_snapshot(dir, segs, segs.len() as int, snap);
}

/// A snapshot of the table, written and loaded, with nothing behind it in the log, recovers the
/// table.
pub proof fn lemma_snapshot_recovers(dir: Seq<char>, path: Seq<char>, t: TableView)
    requires
        snapshot_fits(t.entries),
    ensures
        ({
            let r = recovered(
                dir,
                path,
                Some(snapshot::snapshot_bytes(t.lsn, t.entries)),
                Seq::empty(),
            );
            &&& r is Ok
            &&& r->Ok_0.table.entries == t.entries
            &&& r->Ok_0.table.lsn == t.lsn
            &&& r->Ok_0.table.snapshot_lsn == t.lsn
        }),
{
    snapshot::lemma_snapshot_round_trip(path, t.lsn, t.entries);
}

} // verus!
