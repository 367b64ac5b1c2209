//! Recovery: a write-ahead log (WAL) and ARIES-style analysis, redo and undo.

use std::collections::{HashMap, HashSet};
use vstd::prelude::*;
use vstd::std_specs::iter::IteratorSpec;

use crate::btree::clone_bytes;

verus! {

broadcast use vstd::std_specs::hash::group_hash_axioms;

/// A log record in the WAL.
#[derive(Debug, PartialEq, Clone)]
pub enum LogRecord {
    /// Transaction started.
    Begin { lsn: u64, txn: usize },
    /// Update operation.
    Update {
        lsn: u64,
        txn: usize,
        page_id: usize,
        offset: usize,
        /// Undo information.
        before: Vec<u8>,
        /// Redo information.
        after: Vec<u8>,
    },
    /// Transaction committed.
    Commit { lsn: u64, txn: usize },
    /// Transaction aborted/rolled back.
    Abort { lsn: u64, txn: usize },
    /// Checkpoint.
    Checkpoint { lsn: u64, active_txns: Vec<usize> },
    /// Compensation log record (for ARIES undo).
    CLR {
        lsn: u64,
        txn: usize,
        /// Next LSN to undo.
        undo_next_lsn: Option<u64>,
        page_id: usize,
        offset: usize,
        /// Redo information for the compensation.
        after: Vec<u8>,
    },
}

// ---------------------------------------------------------------------------
// Specification of records and of the log.
// ---------------------------------------------------------------------------

/// A log record as the specifications see it.
pub enum RecView {
    Begin { lsn: u64, txn: usize },
    Update { lsn: u64, txn: usize, page_id: usize, offset: usize, before: Seq<u8>, after: Seq<u8> },
    Commit { lsn: u64, txn: usize },
    Abort { lsn: u64, txn: usize },
    Checkpoint { lsn: u64, active_txns: Seq<usize> },
    CLR { lsn: u64, txn: usize, undo_next_lsn: Option<u64>, page_id: usize, offset: usize, after: Seq<u8> },
}

/// The view of a record.
pub open spec fn rv(r: LogRecord) -> RecView {
    match r {
        LogRecord::Begin { lsn, txn } => RecView::Begin { lsn, txn },
        LogRecord::Update { lsn, txn, page_id, offset, before, after } => RecView::Update {
            lsn,
            txn,
            page_id,
            offset,
            before: before@,
            after: after@,
        },
        LogRecord::Commit { lsn, txn } => RecView::Commit { lsn, txn },
        LogRecord::Abort { lsn, txn } => RecView::Abort { lsn, txn },
        LogRecord::Checkpoint { lsn, active_txns } => RecView::Checkpoint { lsn, active_txns: active_txns@ },
        LogRecord::CLR { lsn, txn, undo_next_lsn, page_id, offset, after } => RecView::CLR {
            lsn,
            txn,
            undo_next_lsn,
            page_id,
            offset,
            after: after@,
        },
    }
}

/// The views of a run of records.
pub open spec fn rvs(rs: Seq<LogRecord>) -> Seq<RecView> {
    rs.map_values(|r: LogRecord| rv(r))
}

/// The LSN of a record.
pub open spec fn rec_lsn(r: RecView) -> u64 {
    match r {
        RecView::Begin { lsn, .. } => lsn,
        RecView::Update { lsn, .. } => lsn,
        RecView::Commit { lsn, .. } => lsn,
        RecView::Abort { lsn, .. } => lsn,
        RecView::Checkpoint { lsn, .. } => lsn,
        RecView::CLR { lsn, .. } => lsn,
    }
}

/// The transaction of a record; checkpoints have none.
pub open spec fn rec_txn(r: RecView) -> Option<usize> {
    match r {
        RecView::Begin { txn, .. } => Some(txn),
        RecView::Update { txn, .. } => Some(txn),
        RecView::Commit { txn, .. } => Some(txn),
        RecView::Abort { txn, .. } => Some(txn),
        RecView::CLR { txn, .. } => Some(txn),
        RecView::Checkpoint { .. } => None,
    }
}

/// LSNs strictly increase along the log.
pub open spec fn lsns_increasing(rs: Seq<RecView>) -> bool {
    forall|i: int, j: int| 0 <= i < j < rs.len() ==> rec_lsn(rs[i]) < rec_lsn(rs[j])
}

/// Every LSN of the log is below `bound`.
pub open spec fn lsns_below(rs: Seq<RecView>, bound: u64) -> bool {
    forall|i: int| 0 <= i < rs.len() ==> rec_lsn(#[trigger] rs[i]) < bound
}

/// The state of a write-ahead log.
pub struct WalView {
    /// The records, oldest first.
    pub records: Seq<RecView>,
    /// The LSN the next record gets.
    pub next_lsn: u64,
    /// The LSN of the last record of each transaction.
    pub last_lsn: Map<usize, u64>,
    /// The LSN of the last update or compensation of each page.
    pub page_lsn: Map<usize, u64>,
}

// ---------------------------------------------------------------------------
// Analysis.
// ---------------------------------------------------------------------------

/// What the analysis phase finds.
pub struct AnalysisView {
    /// Transactions active at the crash, with their last LSN (0 when only
    /// known from the checkpoint).
    pub active: Map<usize, u64>,
    /// Dirty pages with the LSN of the first record that dirtied them.
    pub dirty: Map<usize, u64>,
    pub committed: Set<usize>,
    pub aborted: Set<usize>,
}

/// The analysis state after one more record.
pub open spec fn analyze_record(a: AnalysisView, r: RecView) -> AnalysisView {
    match r {
        RecView::Begin { lsn, txn } => AnalysisView { active: a.active.insert(txn, lsn), ..a },
        RecView::Update { lsn, txn, page_id, .. } => if a.active.contains_key(txn) {
            AnalysisView {
                active: a.active.insert(txn, lsn),
                dirty: if a.dirty.contains_key(page_id) { a.dirty } else { a.dirty.insert(page_id, lsn) },
                ..a
            }
        } else {
            a
        },
        RecView::Commit { txn, .. } => AnalysisView {
            active: a.active.remove(txn),
            committed: a.committed.insert(txn),
            ..a
        },
        RecView::Abort { txn, .. } => AnalysisView {
            active: a.active.remove(txn),
            aborted: a.aborted.insert(txn),
            ..a
        },
        RecView::CLR { lsn, txn, page_id, .. } => if a.active.contains_key(txn) {
            AnalysisView {
                active: a.active.insert(txn, lsn),
                dirty: if a.dirty.contains_key(page_id) { a.dirty } else { a.dirty.insert(page_id, lsn) },
                ..a
            }
        } else {
            a
        },
        RecView::Checkpoint { .. } => a,
    }
}

/// The analysis state after `rs`, oldest first, starting from `a`.
pub open spec fn analyze_records(a: AnalysisView, rs: Seq<RecView>) -> AnalysisView
    decreases rs.len(),
{
    if rs.len() == 0 {
        a
    } else {
        analyze_record(analyze_records(a, rs.drop_last()), rs.last())
    }
}

/// Some record of `rs` commits `t`.
pub open spec fn commits(rs: Seq<RecView>, t: usize) -> bool {
    exists|i: int| 0 <= i < rs.len() && (#[trigger] rs[i] matches RecView::Commit { txn, .. } && txn == t)
}

/// Some record of `rs` aborts `t`.
pub open spec fn aborts(rs: Seq<RecView>, t: usize) -> bool {
    exists|i: int| 0 <= i < rs.len() && (#[trigger] rs[i] matches RecView::Abort { txn, .. } && txn == t)
}

/// Analysing records, in closed form: a transaction ends up committed
/// exactly when it was so before or some record commits it, and aborted
/// likewise; a page that was dirty stays dirty with the LSN that first
/// dirtied it.
pub proof fn lemma_analysis_closed(a: AnalysisView, rs: Seq<RecView>, t: usize, p: usize)
    ensures
        analyze_records(a, rs).committed.contains(t) <==> a.committed.contains(t) || commits(rs, t),
        analyze_records(a, rs).aborted.contains(t) <==> a.aborted.contains(t) || aborts(rs, t),
        a.dirty.contains_key(p) ==> analyze_records(a, rs).dirty.contains_key(p) && analyze_records(a, rs).dirty[p]
            == a.dirty[p],
    decreases rs.len(),
{
    if rs.len() > 0 {
        let pre = rs.drop_last();
        lemma_analysis_closed(a, pre, t, p);
        assert(rs[rs.len() - 1] == rs.last());
        if commits(pre, t) {
            let i = choose|i: int| 0 <= i < pre.len() && (#[trigger] pre[i] matches RecView::Commit { txn, .. } && txn == t);
            assert(rs[i] == pre[i]);
        }
        if commits(rs, t) {
            let i = choose|i: int| 0 <= i < rs.len() && (#[trigger] rs[i] matches RecView::Commit { txn, .. } && txn == t);
            if i < pre.len() {
                assert(pre[i] == rs[i]);
            }
        }
        if aborts(pre, t) {
            let i = choose|i: int| 0 <= i < pre.len() && (#[trigger] pre[i] matches RecView::Abort { txn, .. } && txn == t);
            assert(rs[i] == pre[i]);
        }
        if aborts(rs, t) {
            let i = choose|i: int| 0 <= i < rs.len() && (#[trigger] rs[i] matches RecView::Abort { txn, .. } && txn == t);
            if i < pre.len() {
                assert(pre[i] == rs[i]);
            }
        }
    }
}

/// What one more record does to the analysis: a begin makes its
/// transaction active; a commit or abort ends it and records the outcome; an
/// update or compensation by an active transaction keeps it active with
/// that LSN and marks its page dirty, first dirtied at that LSN unless it
/// already was.
pub proof fn lemma_analysis_step(a: AnalysisView, rs: Seq<RecView>, r: RecView)
    ensures
        ({
            let b = analyze_records(a, rs);
            let n = analyze_records(a, rs.push(r));
            &&& (r matches RecView::Begin { txn, .. } ==> n.active.contains_key(txn))
            &&& (r matches RecView::Commit { txn, .. } ==> !n.active.contains_key(txn) && n.committed.contains(txn))
            &&& (r matches RecView::Abort { txn, .. } ==> !n.active.contains_key(txn) && n.aborted.contains(txn))
            &&& (r matches RecView::Update { lsn, txn, page_id, .. } ==> (b.active.contains_key(txn) ==> n.active.contains_key(txn)
                && n.active[txn] == lsn && n.dirty.contains_key(page_id) && (!b.dirty.contains_key(page_id) ==> n.dirty[page_id] == lsn)))
            &&& (r matches RecView::CLR { lsn, txn, page_id, .. } ==> (b.active.contains_key(txn) ==> n.active.contains_key(txn)
                && n.active[txn] == lsn && n.dirty.contains_key(page_id) && (!b.dirty.contains_key(page_id) ==> n.dirty[page_id] == lsn)))
        }),
{
    assert(rs.push(r).drop_last() =~= rs);
}

/// A transaction stays active through records that neither commit nor
/// abort it.
proof fn lemma_active_kept(a: AnalysisView, rs: Seq<RecView>, t: usize)
    requires
        a.active.contains_key(t),
        !commits(rs, t),
        !aborts(rs, t),
    ensures
        analyze_records(a, rs).active.contains_key(t),
    decreases rs.len(),
{
    if rs.len() > 0 {
        let pre = rs.drop_last();
        assert(!commits(pre, t)) by {
            if commits(pre, t) {
                let i = choose|i: int| 0 <= i < pre.len() && (#[trigger] pre[i] matches RecView::Commit { txn, .. } && txn == t);
                assert(rs[i] == pre[i]);
            }
        }
        assert(!aborts(pre, t)) by {
            if aborts(pre, t) {
                let i = choose|i: int| 0 <= i < pre.len() && (#[trigger] pre[i] matches RecView::Abort { txn, .. } && txn == t);
                assert(rs[i] == pre[i]);
            }
        }
        lemma_active_kept(a, pre, t);
        assert(rs[rs.len() - 1] == rs.last());
    }
}

/// The analysis keeps the transactions that the last checkpoint lists as
/// active, unless the log commits or aborts them: they stay active, to be
/// redone and rolled back.
pub proof fn lemma_checkpoint_active_kept(rs: Seq<RecView>, c: int, t: usize)
    requires
        last_checkpoint(rs, rs.len() as int) == Some(c),
        rs[c]->Checkpoint_active_txns.contains(t),
        !commits(rs, t),
        !aborts(rs, t),
    ensures
        analyze_spec(rs).active.contains_key(t),
{
    lemma_last_checkpoint_in(rs, rs.len() as int);
    let st = scan_start(rs, c);
    lemma_first_with_lsn_in(rs, rec_lsn(rs[c]), rs.len() as int);
    let tail = rs.subrange(st, rs.len() as int);
    assert(!commits(tail, t)) by {
        if commits(tail, t) {
            let i = choose|i: int| 0 <= i < tail.len() && (#[trigger] tail[i] matches RecView::Commit { txn, .. } && txn == t);
            assert(rs[st + i] == tail[i]);
        }
    }
    assert(!aborts(tail, t)) by {
        if aborts(tail, t) {
            let i = choose|i: int| 0 <= i < tail.len() && (#[trigger] tail[i] matches RecView::Abort { txn, .. } && txn == t);
            assert(rs[st + i] == tail[i]);
        }
    }
    lemma_active_kept(checkpoint_analysis(rs, c), tail, t);
}

/// The last checkpoint found among the first `n` records is one of them.
proof fn lemma_last_checkpoint_in(rs: Seq<RecView>, n: int)
    ensures
        last_checkpoint(rs, n) matches Some(c) ==> 0 <= c < n && c < rs.len() && rs[c] is Checkpoint,
    decreases n,
{
    if 0 < n <= rs.len() && !(rs[n - 1] is Checkpoint) {
        lemma_last_checkpoint_in(rs, n - 1);
    }
}

/// The first record with a given LSN found among the first `n` is one of them.
proof fn lemma_first_with_lsn_in(rs: Seq<RecView>, lsn: u64, n: int)
    ensures
        first_with_lsn(rs, lsn, n) matches Some(i) ==> 0 <= i < n && i < rs.len(),
    decreases n,
{
    if 0 < n <= rs.len() {
        lemma_first_with_lsn_in(rs, lsn, n - 1);
    }
}

/// The index of the last checkpoint among the first `n` records.
pub open spec fn last_checkpoint(rs: Seq<RecView>, n: int) -> Option<int>
    decreases n,
{
    if n <= 0 || n > rs.len() {
        None
    } else if rs[n - 1] is Checkpoint {
        Some(n - 1)
    } else {
        last_checkpoint(rs, n - 1)
    }
}

/// The index of the first record with LSN `lsn` among the first `n` records.
pub open spec fn first_with_lsn(rs: Seq<RecView>, lsn: u64, n: int) -> Option<int>
    decreases n,
{
    if n <= 0 || n > rs.len() {
        None
    } else if first_with_lsn(rs, lsn, n - 1) is Some {
        first_with_lsn(rs, lsn, n - 1)
    } else if rec_lsn(rs[n - 1]) == lsn {
        Some(n - 1)
    } else {
        None
    }
}

/// The analysis of a log that has no checkpoint starts empty.
pub open spec fn empty_analysis() -> AnalysisView {
    AnalysisView {
        active: Map::empty(),
        dirty: Map::empty(),
        committed: Set::empty(),
        aborted: Set::empty(),
    }
}

/// The state the analysis starts from at checkpoint `c`: its active
/// transactions, each with LSN 0.
pub open spec fn checkpoint_analysis(rs: Seq<RecView>, c: int) -> AnalysisView {
    let txns = rs[c]->Checkpoint_active_txns;
    AnalysisView { active: Map::new(|t: usize| txns.contains(t), |t: usize| 0u64), ..empty_analysis() }
}

/// Where the analysis scan starts for checkpoint `c`: the first record with
/// its LSN.
pub open spec fn scan_start(rs: Seq<RecView>, c: int) -> int {
    match first_with_lsn(rs, rec_lsn(rs[c]), rs.len() as int) {
        Some(i) => i,
        None => 0,
    }
}

/// The ARIES analysis phase: from the last checkpoint (whose active
/// transactions start out active with LSN 0), or from the start, scan the
/// log forward.
pub open spec fn analyze_spec(rs: Seq<RecView>) -> AnalysisView {
    match last_checkpoint(rs, rs.len() as int) {
        None => analyze_records(empty_analysis(), rs),
        Some(c) => analyze_records(checkpoint_analysis(rs, c), rs.subrange(scan_start(rs, c), rs.len() as int)),
    }
}

// ---------------------------------------------------------------------------
// Redo and undo.
// ---------------------------------------------------------------------------

/// `page` with `data` written at `offset`, zero-extended as needed.
pub open spec fn write_bytes(page: Seq<u8>, offset: int, data: Seq<u8>) -> Seq<u8> {
    let len = if page.len() >= offset + data.len() { page.len() as int } else { offset + data.len() };
    Seq::new(
        len as nat,
        |i: int|
            if offset <= i < offset + data.len() {
                data[i - offset]
            } else if i < page.len() {
                page[i]
            } else {
                0u8
            },
    )
}

/// The contents of page `p`, empty if absent.
pub open spec fn page_or_empty(pages: Map<usize, Seq<u8>>, p: usize) -> Seq<u8> {
    if pages.contains_key(p) {
        pages[p]
    } else {
        Seq::empty()
    }
}

/// The pages after replaying one record, given the dirty pages and the
/// smallest recovery LSN.
pub open spec fn redo_record(pages: Map<usize, Seq<u8>>, r: RecView, dirty: Map<usize, u64>, min_lsn: u64) -> Map<
    usize,
    Seq<u8>,
> {
    if rec_lsn(r) < min_lsn {
        pages
    } else {
        match r {
            RecView::Update { page_id, offset, after, .. } => if dirty.contains_key(page_id) {
                pages.insert(page_id, write_bytes(page_or_empty(pages, page_id), offset as int, after))
            } else {
                pages
            },
            RecView::CLR { page_id, offset, after, .. } => if dirty.contains_key(page_id) {
                pages.insert(page_id, write_bytes(page_or_empty(pages, page_id), offset as int, after))
            } else {
                pages
            },
            _ => pages,
        }
    }
}

/// The pages after replaying `rs`, oldest first.
pub open spec fn redo_records(pages: Map<usize, Seq<u8>>, rs: Seq<RecView>, dirty: Map<usize, u64>, min_lsn: u64) -> Map<
    usize,
    Seq<u8>,
>
    decreases rs.len(),
{
    if rs.len() == 0 {
        pages
    } else {
        redo_record(redo_records(pages, rs.drop_last(), dirty, min_lsn), rs.last(), dirty, min_lsn)
    }
}

/// What replaying `r` writes: its page, offset and after-image, when it is
/// an update or compensation at or after `min_lsn` on a dirty page.
pub open spec fn redo_write(r: RecView, dirty: Map<usize, u64>, min_lsn: u64) -> Option<(usize, int, Seq<u8>)> {
    if rec_lsn(r) < min_lsn {
        None
    } else {
        match r {
            RecView::Update { page_id, offset, after, .. } => if dirty.contains_key(page_id) {
                Some((page_id, offset as int, after))
            } else {
                None
            },
            RecView::CLR { page_id, offset, after, .. } => if dirty.contains_key(page_id) {
                Some((page_id, offset as int, after))
            } else {
                None
            },
            _ => None,
        }
    }
}

/// Replaying `rs` writes to page `p`.
pub open spec fn redo_touches(rs: Seq<RecView>, dirty: Map<usize, u64>, min_lsn: u64, p: usize) -> bool
    decreases rs.len(),
{
    if rs.len() == 0 {
        false
    } else {
        redo_touches(rs.drop_last(), dirty, min_lsn, p) || match redo_write(rs.last(), dirty, min_lsn) {
            Some(w) => w.0 == p,
            None => false,
        }
    }
}

/// How far into page `p` the writes of replaying `rs` reach (0 if none).
pub open spec fn redo_reach(rs: Seq<RecView>, dirty: Map<usize, u64>, min_lsn: u64, p: usize) -> int
    decreases rs.len(),
{
    if rs.len() == 0 {
        0
    } else {
        let before = redo_reach(rs.drop_last(), dirty, min_lsn, p);
        let end = match redo_write(rs.last(), dirty, min_lsn) {
            Some(w) => if w.0 == p { w.1 + w.2.len() } else { 0 },
            None => 0,
        };
        if before >= end { before } else { end }
    }
}

/// The last record of `rs` whose replay writes byte `i` of page `p`.
pub open spec fn redo_last_writer(rs: Seq<RecView>, dirty: Map<usize, u64>, min_lsn: u64, p: usize, i: int) -> Option<int>
    decreases rs.len(),
{
    if rs.len() == 0 {
        None
    } else {
        match redo_write(rs.last(), dirty, min_lsn) {
            Some(w) => if w.0 == p && w.1 <= i < w.1 + w.2.len() {
                Some(rs.len() - 1)
            } else {
                redo_last_writer(rs.drop_last(), dirty, min_lsn, p, i)
            },
            None => redo_last_writer(rs.drop_last(), dirty, min_lsn, p, i),
        }
    }
}

/// The byte that replaying `r` writes at position `i` of its page.
pub open spec fn redo_byte(r: RecView, dirty: Map<usize, u64>, min_lsn: u64, i: int) -> u8 {
    match redo_write(r, dirty, min_lsn) {
        Some(w) => w.2[i - w.1],
        None => 0,
    }
}

/// The last writer of a byte is one of the records.
proof fn lemma_last_writer_in(rs: Seq<RecView>, dirty: Map<usize, u64>, min_lsn: u64, p: usize, i: int)
    ensures
        redo_last_writer(rs, dirty, min_lsn, p, i) matches Some(j) ==> 0 <= j < rs.len(),
    decreases rs.len(),
{
    if rs.len() > 0 {
        lemma_last_writer_in(rs.drop_last(), dirty, min_lsn, p, i);
    }
}

/// Replaying `rs` over `pages`, page by page and byte by byte: page `p`
/// exists if it did or is written; it reaches as far as it did or as the
/// writes reach; each byte is that of the last write to it, else the old
/// byte, else zero.
proof fn lemma_redo_pointwise(pages: Map<usize, Seq<u8>>, rs: Seq<RecView>, dirty: Map<usize, u64>, min_lsn: u64, p: usize)
    ensures
        redo_records(pages, rs, dirty, min_lsn).contains_key(p) == (pages.contains_key(p) || redo_touches(rs, dirty, min_lsn, p)),
        page_or_empty(redo_records(pages, rs, dirty, min_lsn), p).len() == if page_or_empty(pages, p).len() >= redo_reach(rs, dirty, min_lsn, p) {
            page_or_empty(pages, p).len() as int
        } else {
            redo_reach(rs, dirty, min_lsn, p)
        },
        redo_reach(rs, dirty, min_lsn, p) >= 0,
        forall|i: int| #![trigger redo_last_writer(rs, dirty, min_lsn, p, i)]
            0 <= i < page_or_empty(redo_records(pages, rs, dirty, min_lsn), p).len() ==> page_or_empty(redo_records(pages, rs, dirty, min_lsn), p)[i] == match redo_last_writer(rs, dirty, min_lsn, p, i) {
                Some(j) => redo_byte(rs[j], dirty, min_lsn, i),
                None => if i < page_or_empty(pages, p).len() { page_or_empty(pages, p)[i] } else { 0u8 },
            },
        forall|i: int| #![trigger redo_last_writer(rs, dirty, min_lsn, p, i)]
            redo_last_writer(rs, dirty, min_lsn, p, i) is Some ==> i < redo_reach(rs, dirty, min_lsn, p),
    decreases rs.len(),
{
    if rs.len() > 0 {
        let pre = rs.drop_last();
        let r = rs.last();
        lemma_redo_pointwise(pages, pre, dirty, min_lsn, p);
        let prev = redo_records(pages, pre, dirty, min_lsn);
        let cur = redo_records(pages, rs, dirty, min_lsn);
        assert(cur == redo_record(prev, r, dirty, min_lsn));
        assert forall|i: int| #![trigger redo_last_writer(rs, dirty, min_lsn, p, i)]
            redo_last_writer(rs, dirty, min_lsn, p, i) is Some implies i < redo_reach(rs, dirty, min_lsn, p) by {
            if redo_last_writer(rs, dirty, min_lsn, p, i) != Some(rs.len() - 1) {
                assert(redo_last_writer(rs, dirty, min_lsn, p, i) == redo_last_writer(pre, dirty, min_lsn, p, i));
            }
        }
        match redo_write(r, dirty, min_lsn) {
            Some(w) => {
                if w.0 == p {
                    assert forall|i: int| #![trigger redo_last_writer(rs, dirty, min_lsn, p, i)]
                        0 <= i < page_or_empty(cur, p).len() implies page_or_empty(cur, p)[i] == match redo_last_writer(rs, dirty, min_lsn, p, i) {
                            Some(j) => redo_byte(rs[j], dirty, min_lsn, i),
                            None => if i < page_or_empty(pages, p).len() { page_or_empty(pages, p)[i] } else { 0u8 },
                        } by {
                        if !(w.1 <= i < w.1 + w.2.len()) {
                            assert(redo_last_writer(rs, dirty, min_lsn, p, i) == redo_last_writer(pre, dirty, min_lsn, p, i));
                            lemma_last_writer_in(pre, dirty, min_lsn, p, i);
                            if let Some(j) = redo_last_writer(pre, dirty, min_lsn, p, i) {
                                assert(rs[j] == pre[j]);
                            }
                        }
                    }
                } else {
                    assert(page_or_empty(cur, p) == page_or_empty(prev, p));
                    assert forall|i: int| #![trigger redo_last_writer(rs, dirty, min_lsn, p, i)]
                        0 <= i < page_or_empty(cur, p).len() implies page_or_empty(cur, p)[i] == match redo_last_writer(rs, dirty, min_lsn, p, i) {
                            Some(j) => redo_byte(rs[j], dirty, min_lsn, i),
                            None => if i < page_or_empty(pages, p).len() { page_or_empty(pages, p)[i] } else { 0u8 },
                        } by {
                        assert(redo_last_writer(rs, dirty, min_lsn, p, i) == redo_last_writer(pre, dirty, min_lsn, p, i));
                        lemma_last_writer_in(pre, dirty, min_lsn, p, i);
                        if let Some(j) = redo_last_writer(pre, dirty, min_lsn, p, i) {
                            assert(rs[j] == pre[j]);
                        }
                    }
                }
            },
            None => {
                assert(cur == prev);
                assert forall|i: int| #![trigger redo_last_writer(rs, dirty, min_lsn, p, i)]
                    0 <= i < page_or_empty(cur, p).len() implies page_or_empty(cur, p)[i] == match redo_last_writer(rs, dirty, min_lsn, p, i) {
                        Some(j) => redo_byte(rs[j], dirty, min_lsn, i),
                        None => if i < page_or_empty(pages, p).len() { page_or_empty(pages, p)[i] } else { 0u8 },
                    } by {
                    assert(redo_last_writer(rs, dirty, min_lsn, p, i) == redo_last_writer(pre, dirty, min_lsn, p, i));
                    lemma_last_writer_in(pre, dirty, min_lsn, p, i);
                    if let Some(j) = redo_last_writer(pre, dirty, min_lsn, p, i) {
                        assert(rs[j] == pre[j]);
                    }
                }
            },
        }
    }
}

/// Replaying the log is idempotent: replaying it again over the pages that
/// a replay produced changes nothing.
pub proof fn lemma_redo_idempotent(pages: Map<usize, Seq<u8>>, rs: Seq<RecView>, dirty: Map<usize, u64>, min_lsn: u64)
    ensures
        redo_records(redo_records(pages, rs, dirty, min_lsn), rs, dirty, min_lsn) == redo_records(pages, rs, dirty, min_lsn),
{
    let once = redo_records(pages, rs, dirty, min_lsn);
    let twice = redo_records(once, rs, dirty, min_lsn);
    assert forall|p: usize| #[trigger] twice.contains_key(p) == once.contains_key(p) by {
        lemma_redo_pointwise(pages, rs, dirty, min_lsn, p);
        lemma_redo_pointwise(once, rs, dirty, min_lsn, p);
    }
    assert forall|p: usize| twice.contains_key(p) implies #[trigger] twice[p] == once[p] by {
        lemma_redo_pointwise(pages, rs, dirty, min_lsn, p);
        lemma_redo_pointwise(once, rs, dirty, min_lsn, p);
        assert(page_or_empty(twice, p) == twice[p]);
        assert(page_or_empty(once, p) == once[p]);
        assert forall|i: int| 0 <= i < twice[p].len() implies twice[p][i] == once[p][i] by {
            assert(redo_last_writer(rs, dirty, min_lsn, p, i) == redo_last_writer(rs, dirty, min_lsn, p, i));
        }
        assert(twice[p] =~= once[p]);
    }
    assert(twice =~= once);
}

/// Redo replays a compensation record just as it replays an update record
/// with the same LSN, page, offset and after-image; and when it is at or
/// after the minimum LSN and its page is dirty, the page then holds its
/// after-image at its offset.
pub proof fn lemma_redo_replays_clr(
    pages: Map<usize, Seq<u8>>,
    rs: Seq<RecView>,
    dirty: Map<usize, u64>,
    min_lsn: u64,
    lsn: u64,
    txn: usize,
    undo_next_lsn: Option<u64>,
    page_id: usize,
    offset: usize,
    before: Seq<u8>,
    after: Seq<u8>,
)
    ensures
        redo_records(pages, rs.push(RecView::CLR { lsn, txn, undo_next_lsn, page_id, offset, after }), dirty, min_lsn)
            == redo_records(pages, rs.push(RecView::Update { lsn, txn, page_id, offset, before, after }), dirty, min_lsn),
        lsn >= min_lsn && dirty.contains_key(page_id) ==> {
            let q = redo_records(pages, rs.push(RecView::CLR { lsn, txn, undo_next_lsn, page_id, offset, after }), dirty, min_lsn);
            &&& q.contains_key(page_id)
            &&& q[page_id].len() >= offset + after.len()
            &&& q[page_id].subrange(offset as int, offset + after.len()) == after
        },
{
    let c = rs.push(RecView::CLR { lsn, txn, undo_next_lsn, page_id, offset, after });
    let u = rs.push(RecView::Update { lsn, txn, page_id, offset, before, after });
    assert(c.drop_last() =~= rs);
    assert(u.drop_last() =~= rs);
    if lsn >= min_lsn && dirty.contains_key(page_id) {
        let q = redo_records(pages, c, dirty, min_lsn);
        assert(q[page_id].subrange(offset as int, offset + after.len()) =~= after);
    }
}

/// Redo writes the after-image of an update record at or after the minimum
/// LSN on a dirty page, and skips any record before the minimum LSN.
pub proof fn lemma_redo_replays_update(
    pages: Map<usize, Seq<u8>>,
    rs: Seq<RecView>,
    dirty: Map<usize, u64>,
    min_lsn: u64,
    r: RecView,
)
    ensures
        rec_lsn(r) < min_lsn ==> redo_records(pages, rs.push(r), dirty, min_lsn) == redo_records(pages, rs, dirty, min_lsn),
        (r matches RecView::Update { lsn, page_id, offset, after, .. } && lsn >= min_lsn && dirty.contains_key(page_id)) ==> {
            let q = redo_records(pages, rs.push(r), dirty, min_lsn);
            &&& q.contains_key(r->Update_page_id)
            &&& q[r->Update_page_id].len() >= r->Update_offset + r->Update_after.len()
            &&& q[r->Update_page_id].subrange(r->Update_offset as int, r->Update_offset + r->Update_after.len())
                == r->Update_after
        },
        (r is Begin || r is Commit || r is Abort || r is Checkpoint) ==> redo_records(pages, rs.push(r), dirty, min_lsn)
            == redo_records(pages, rs, dirty, min_lsn),
{
    assert(rs.push(r).drop_last() =~= rs);
    if let RecView::Update { lsn, page_id, offset, after, .. } = r {
        if lsn >= min_lsn && dirty.contains_key(page_id) {
            let q = redo_records(pages, rs.push(r), dirty, min_lsn);
            assert(q[page_id].subrange(offset as int, offset + after.len()) =~= after);
        }
    }
}

/// Replaying the log leaves every page that is not dirty as it was: it is
/// neither changed nor added.
pub proof fn lemma_redo_keeps_clean(pages: Map<usize, Seq<u8>>, rs: Seq<RecView>, dirty: Map<usize, u64>, min_lsn: u64, q: usize)
    requires
        !dirty.contains_key(q),
    ensures
        redo_records(pages, rs, dirty, min_lsn).contains_key(q) == pages.contains_key(q),
        pages.contains_key(q) ==> redo_records(pages, rs, dirty, min_lsn)[q] == pages[q],
    decreases rs.len(),
{
    if rs.len() > 0 {
        lemma_redo_keeps_clean(pages, rs.drop_last(), dirty, min_lsn, q);
    }
}

/// `v` is the smallest value of `m` (0 when `m` is empty).
pub open spec fn is_min_value(m: Map<usize, u64>, v: u64) -> bool {
    if m.dom().len() == 0 {
        v == 0
    } else {
        &&& m.values().contains(v)
        &&& forall|w: u64| m.values().contains(w) ==> v <= w
    }
}

/// Every update and compensation record names a byte range that fits in
/// memory addresses.
pub open spec fn ranges_fit(rs: Seq<RecView>) -> bool {
    forall|i: int|
        0 <= i < rs.len() ==> match #[trigger] rs[i] {
            RecView::Update { offset, before, after, .. } => offset + before.len() <= usize::MAX
                && offset + after.len() <= usize::MAX,
            RecView::CLR { offset, after, .. } => offset + after.len() <= usize::MAX,
            _ => true,
        }
}


/// The before-images of `txn`'s updates in `rs`, newest first.
pub open spec fn undo_ops(rs: Seq<RecView>, txn: usize) -> Seq<(usize, usize, Seq<u8>)>
    decreases rs.len(),
{
    if rs.len() == 0 {
        Seq::empty()
    } else {
        let rest = undo_ops(rs.drop_last(), txn);
        match rs.last() {
            RecView::Update { txn: t, page_id, offset, before, .. } => if t == txn {
                seq![(page_id, offset, before)] + rest
            } else {
                rest
            },
            _ => rest,
        }
    }
}

/// The log, LSN counter, pages and compensation records during undo.
pub struct UndoView {
    pub records: Seq<RecView>,
    pub next_lsn: u64,
    pub pages: Map<usize, Seq<u8>>,
    pub clrs: Seq<RecView>,
}

/// `pages` with a before-image restored, when the page exists and is long enough.
pub open spec fn restore_page(pages: Map<usize, Seq<u8>>, page_id: usize, offset: usize, before: Seq<u8>) -> Map<
    usize,
    Seq<u8>,
> {
    if pages.contains_key(page_id) && pages[page_id].len() >= offset + before.len() {
        pages.insert(page_id, write_bytes(pages[page_id], offset as int, before))
    } else {
        pages
    }
}

/// The compensation record for undoing `op` of `txn` at `lsn`.
pub open spec fn compensation(lsn: u64, txn: usize, op: (usize, usize, Seq<u8>)) -> RecView {
    RecView::CLR { lsn, txn, undo_next_lsn: None, page_id: op.0, offset: op.1, after: op.2 }
}

/// Undoes `ops` of `txn` in order: each restores its before-image and logs
/// a compensation record.
pub open spec fn undo_apply(u: UndoView, txn: usize, ops: Seq<(usize, usize, Seq<u8>)>) -> UndoView
    decreases ops.len(),
{
    if ops.len() == 0 {
        u
    } else {
        let u1 = undo_apply(u, txn, ops.drop_last());
        let op = ops.last();
        let c = compensation(u1.next_lsn, txn, op);
        UndoView {
            records: u1.records.push(c),
            next_lsn: (u1.next_lsn + 1) as u64,
            pages: restore_page(u1.pages, op.0, op.1, op.2),
            clrs: u1.clrs.push(c),
        }
    }
}

/// Rolls back `txn`: undoes its updates newest first, then logs its abort.
pub open spec fn undo_txn(u: UndoView, txn: usize) -> UndoView {
    let u1 = undo_apply(u, txn, undo_ops(u.records, txn));
    UndoView {
        records: u1.records.push(RecView::Abort { lsn: u1.next_lsn, txn }),
        next_lsn: (u1.next_lsn + 1) as u64,
        ..u1
    }
}

/// Rolls back `losers` in order.
pub open spec fn undo_all(u: UndoView, losers: Seq<usize>) -> UndoView
    decreases losers.len(),
{
    if losers.len() == 0 {
        u
    } else {
        undo_txn(undo_all(u, losers.drop_last()), losers.last())
    }
}

/// Some update record of `rs` by one of `txns` writes page `p`.
pub open spec fn updates_page(rs: Seq<RecView>, txns: Seq<usize>, p: usize) -> bool {
    exists|j: int| 0 <= j < rs.len() && match #[trigger] rs[j] {
        RecView::Update { txn, page_id, .. } => txns.contains(txn) && page_id == p,
        _ => false,
    }
}

/// `after` is `before` with records appended, none of them an update.
spec fn appends_no_update(before: Seq<RecView>, after: Seq<RecView>) -> bool {
    &&& before.len() <= after.len()
    &&& after.subrange(0, before.len() as int) == before
    &&& forall|j: int| before.len() <= j < after.len() ==> !(#[trigger] after[j] is Update)
}

/// Each undo operation of `txn` restores the before-image of one of its
/// update records.
proof fn lemma_undo_op_source(rs: Seq<RecView>, txn: usize, i: int)
    requires
        0 <= i < undo_ops(rs, txn).len(),
    ensures
        exists|j: int| 0 <= j < rs.len() && match #[trigger] rs[j] {
            RecView::Update { txn: t, page_id, .. } => t == txn && page_id == undo_ops(rs, txn)[i].0,
            _ => false,
        },
    decreases rs.len(),
{
    let rest = undo_ops(rs.drop_last(), txn);
    let last = rs.len() - 1;
    assert(rs.last() == rs[last]);
    match rs.last() {
        RecView::Update { txn: t, .. } => {
            if t == txn && i == 0 {
                assert(match rs[last] {
                    RecView::Update { txn: t, page_id, .. } => t == txn && page_id == undo_ops(rs, txn)[i].0,
                    _ => false,
                });
            } else {
                let i2 = if t == txn { i - 1 } else { i };
                lemma_undo_op_source(rs.drop_last(), txn, i2);
                let j = choose|j: int| 0 <= j < rs.drop_last().len() && match #[trigger] rs.drop_last()[j] {
                    RecView::Update { txn: t, page_id, .. } => t == txn && page_id == rest[i2].0,
                    _ => false,
                };
                assert(rs.drop_last()[j] == rs[j]);
            }
        },
        _ => {
            lemma_undo_op_source(rs.drop_last(), txn, i);
            let j = choose|j: int| 0 <= j < rs.drop_last().len() && match #[trigger] rs.drop_last()[j] {
                RecView::Update { txn: t, page_id, .. } => t == txn && page_id == rest[i].0,
                _ => false,
            };
            assert(rs.drop_last()[j] == rs[j]);
        },
    }
}

/// Undoing operations that all avoid page `p` leaves `p` alone and appends
/// compensation records only.
proof fn lemma_undo_apply_spares(u: UndoView, txn: usize, ops: Seq<(usize, usize, Seq<u8>)>, p: usize)
    requires
        forall|i: int| 0 <= i < ops.len() ==> (#[trigger] ops[i]).0 != p,
    ensures
        undo_apply(u, txn, ops).pages.contains_key(p) == u.pages.contains_key(p),
        u.pages.contains_key(p) ==> undo_apply(u, txn, ops).pages[p] == u.pages[p],
        appends_no_update(u.records, undo_apply(u, txn, ops).records),
    decreases ops.len(),
{
    if ops.len() > 0 {
        lemma_undo_apply_spares(u, txn, ops.drop_last(), p);
        assert(ops.last() == ops[ops.len() - 1]);
        let u1 = undo_apply(u, txn, ops.drop_last());
        let r = undo_apply(u, txn, ops).records;
        assert(r == u1.records.push(compensation(u1.next_lsn, txn, ops.last())));
        assert(r.subrange(0, u.records.len() as int) =~= u1.records.subrange(0, u.records.len() as int));
        assert forall|j: int| u.records.len() <= j < r.len() implies !(#[trigger] r[j] is Update) by {
            if j < u1.records.len() {
                assert(r[j] == u1.records[j]);
            }
        }
    } else {
        assert(u.records.subrange(0, u.records.len() as int) =~= u.records);
    }
}

/// Undo spares the pages that no loser updated: rolling back `losers`
/// leaves every page that none of their update records writes as it was,
/// so work of committed transactions on other pages stays.
pub proof fn lemma_undo_spares_pages(u: UndoView, losers: Seq<usize>, p: usize)
    requires
        !updates_page(u.records, losers, p),
    ensures
        undo_all(u, losers).pages.contains_key(p) == u.pages.contains_key(p),
        u.pages.contains_key(p) ==> undo_all(u, losers).pages[p] == u.pages[p],
{
    lemma_undo_all_spares(u, losers, losers, p);
}

/// Rolling back a prefix `losers` of `all` keeps page `p` and appends no
/// update record.
proof fn lemma_undo_all_spares(u: UndoView, losers: Seq<usize>, all: Seq<usize>, p: usize)
    requires
        !updates_page(u.records, all, p),
        forall|i: int| 0 <= i < losers.len() ==> all.contains(#[trigger] losers[i]),
    ensures
        undo_all(u, losers).pages.contains_key(p) == u.pages.contains_key(p),
        u.pages.contains_key(p) ==> undo_all(u, losers).pages[p] == u.pages[p],
        appends_no_update(u.records, undo_all(u, losers).records),
    decreases losers.len(),
{
    if losers.len() == 0 {
        assert(u.records.subrange(0, u.records.len() as int) =~= u.records);
    } else {
        let pre = losers.drop_last();
        assert forall|i: int| 0 <= i < pre.len() implies all.contains(#[trigger] pre[i]) by {
            assert(pre[i] == losers[i]);
        }
        lemma_undo_all_spares(u, pre, all, p);
        let u0 = undo_all(u, pre);
        let t = losers.last();
        assert(all.contains(t)) by {
            assert(losers[losers.len() - 1] == t);
        }
        let ops = undo_ops(u0.records, t);
        assert forall|i: int| 0 <= i < ops.len() implies (#[trigger] ops[i]).0 != p by {
            lemma_undo_op_source(u0.records, t, i);
            let j = choose|j: int| 0 <= j < u0.records.len() && match #[trigger] u0.records[j] {
                RecView::Update { txn: tt, page_id, .. } => tt == t && page_id == ops[i].0,
                _ => false,
            };
            assert(j < u.records.len());
            assert(u0.records[j] == u.records[j]) by {
                assert(u0.records.subrange(0, u.records.len() as int)[j] == u0.records[j]);
            }
            if ops[i].0 == p {
                assert(match u.records[j] {
                    RecView::Update { txn, page_id, .. } => all.contains(txn) && page_id == p,
                    _ => false,
                });
            }
        }
        lemma_undo_apply_spares(u0, t, ops, p);
        let u1 = undo_apply(u0, t, ops);
        let fin = undo_all(u, losers);
        assert(fin.records == u1.records.push(RecView::Abort { lsn: u1.next_lsn, txn: t }));
        assert(fin.records.subrange(0, u.records.len() as int) =~= u0.records.subrange(0, u.records.len() as int)) by {
            assert(u1.records.subrange(0, u0.records.len() as int) == u0.records);
        }
        assert forall|j: int| u.records.len() <= j < fin.records.len() implies !(#[trigger] fin.records[j] is Update) by {
            if j < u1.records.len() {
                assert(fin.records[j] == u1.records[j]);
                if j < u0.records.len() {
                    assert(u1.records[j] == u1.records.subrange(0, u0.records.len() as int)[j]);
                }
            }
        }
    }
}

/// The number of update records in `rs` of transactions in `txns`.
pub open spec fn update_count(rs: Seq<RecView>, txns: Set<usize>) -> nat
    decreases rs.len(),
{
    if rs.len() == 0 {
        0
    } else {
        update_count(rs.drop_last(), txns) + match rs.last() {
            RecView::Update { txn, .. } => if txns.contains(txn) {
                1nat
            } else {
                0nat
            },
            _ => 0nat,
        }
    }
}

/// `pages` after restoring the before-images `ops` in order.
pub open spec fn restore_all(pages: Map<usize, Seq<u8>>, ops: Seq<(usize, usize, Seq<u8>)>) -> Map<usize, Seq<u8>>
    decreases ops.len(),
{
    if ops.len() == 0 {
        pages
    } else {
        restore_page(restore_all(pages, ops.drop_last()), ops.last().0, ops.last().1, ops.last().2)
    }
}

/// The before-images that rolling back `losers` in order restores, over the
/// updates of `rs`.
pub open spec fn undo_writes(rs: Seq<RecView>, losers: Seq<usize>) -> Seq<(usize, usize, Seq<u8>)>
    decreases losers.len(),
{
    if losers.len() == 0 {
        Seq::empty()
    } else {
        undo_writes(rs, losers.drop_last()) + undo_ops(rs, losers.last())
    }
}

/// The last of `ops` that restores byte `i` of page `p`, whose length is `n`.
spec fn last_cover(ops: Seq<(usize, usize, Seq<u8>)>, p: usize, n: int, i: int) -> Option<int>
    decreases ops.len(),
{
    if ops.len() == 0 {
        None
    } else {
        let op = ops.last();
        if op.0 == p && n >= op.1 + op.2.len() && op.1 <= i < op.1 + op.2.len() {
            Some(ops.len() - 1)
        } else {
            last_cover(ops.drop_last(), p, n, i)
        }
    }
}

/// Restore `k` of `ops` reaches byte `i`.
spec fn covers_at(ops: Seq<(usize, usize, Seq<u8>)>, k: int, i: int) -> bool {
    0 <= k < ops.len() && ops[k].1 <= i < ops[k].1 + ops[k].2.len()
}

/// Restoring keeps the pages and their lengths; each byte is that of the
/// last restore that covers it, else the old byte.
proof fn lemma_restore_pointwise(pages: Map<usize, Seq<u8>>, ops: Seq<(usize, usize, Seq<u8>)>, p: usize)
    ensures
        restore_all(pages, ops).contains_key(p) == pages.contains_key(p),
        pages.contains_key(p) ==> restore_all(pages, ops)[p].len() == pages[p].len(),
        pages.contains_key(p) ==> forall|i: int|
            0 <= i < pages[p].len() ==> restore_all(pages, ops)[p][i] == match #[trigger] last_cover(ops, p, pages[p].len() as int, i) {
                Some(k) => ops[k].2[i - ops[k].1],
                None => pages[p][i],
            },
        forall|i: int| #![trigger last_cover(ops, p, pages[p].len() as int, i)]
            last_cover(ops, p, pages[p].len() as int, i) is Some ==> covers_at(ops, last_cover(ops, p, pages[p].len() as int, i)->0, i),
    decreases ops.len(),
{
    if ops.len() > 0 {
        let pre = ops.drop_last();
        lemma_restore_pointwise(pages, pre, p);
        let prev = restore_all(pages, pre);
        let op = ops.last();
        assert forall|i: int| #![trigger last_cover(ops, p, pages[p].len() as int, i)]
            last_cover(ops, p, pages[p].len() as int, i) is Some implies covers_at(ops, last_cover(ops, p, pages[p].len() as int, i)->0, i) by {
            if last_cover(ops, p, pages[p].len() as int, i) != Some(ops.len() - 1) {
                assert(last_cover(ops, p, pages[p].len() as int, i) == last_cover(pre, p, pages[p].len() as int, i));
                if let Some(k) = last_cover(pre, p, pages[p].len() as int, i) {
                    assert(ops[k] == pre[k]);
                }
            }
        }
        if pages.contains_key(p) {
            assert forall|i: int| 0 <= i < pages[p].len() implies restore_all(pages, ops)[p][i] == match #[trigger] last_cover(ops, p, pages[p].len() as int, i) {
                Some(k) => ops[k].2[i - ops[k].1],
                None => pages[p][i],
            } by {
                assert(prev[p][i] == match last_cover(pre, p, pages[p].len() as int, i) {
                    Some(k) => pre[k].2[i - pre[k].1],
                    None => pages[p][i],
                });
                if let Some(k) = last_cover(pre, p, pages[p].len() as int, i) {
                    assert(ops[k] == pre[k]);
                }
            }
        }
    }
}

/// Restoring the same before-images again changes nothing.
proof fn lemma_restore_idempotent(pages: Map<usize, Seq<u8>>, ops: Seq<(usize, usize, Seq<u8>)>)
    ensures
        restore_all(restore_all(pages, ops), ops) == restore_all(pages, ops),
{
    let once = restore_all(pages, ops);
    let twice = restore_all(once, ops);
    assert forall|p: usize| #[trigger] twice.contains_key(p) == once.contains_key(p) by {
        lemma_restore_pointwise(pages, ops, p);
        lemma_restore_pointwise(once, ops, p);
    }
    assert forall|p: usize| twice.contains_key(p) implies #[trigger] twice[p] == once[p] by {
        lemma_restore_pointwise(pages, ops, p);
        lemma_restore_pointwise(once, ops, p);
        assert forall|i: int| 0 <= i < twice[p].len() implies twice[p][i] == once[p][i] by {
            assert(last_cover(ops, p, once[p].len() as int, i) == last_cover(ops, p, pages[p].len() as int, i));
        }
        assert(twice[p] =~= once[p]);
    }
    assert(twice =~= once);
}

/// Restoring `a` then `b` is restoring `a + b`.
proof fn lemma_restore_concat(pages: Map<usize, Seq<u8>>, a: Seq<(usize, usize, Seq<u8>)>, b: Seq<(usize, usize, Seq<u8>)>)
    ensures
        restore_all(pages, a + b) == restore_all(restore_all(pages, a), b),
    decreases b.len(),
{
    if b.len() == 0 {
        assert(a + b =~= a);
    } else {
        lemma_restore_concat(pages, a, b.drop_last());
        assert((a + b).drop_last() =~= a + b.drop_last());
        assert((a + b).last() == b.last());
    }
}

/// Records with no update among them add no before-images.
proof fn lemma_undo_ops_no_update(rs: Seq<RecView>, txn: usize)
    requires
        forall|j: int| 0 <= j < rs.len() ==> !(#[trigger] rs[j] is Update),
    ensures
        undo_ops(rs, txn) == Seq::<(usize, usize, Seq<u8>)>::empty(),
    decreases rs.len(),
{
    if rs.len() > 0 {
        assert(!(rs[rs.len() - 1] is Update));
        assert forall|j: int| 0 <= j < rs.drop_last().len() implies !(#[trigger] rs.drop_last()[j] is Update) by {
            assert(rs.drop_last()[j] == rs[j]);
        }
        lemma_undo_ops_no_update(rs.drop_last(), txn);
    }
}

/// Appending records that are no updates keeps the before-images.
proof fn lemma_undo_ops_appended(before: Seq<RecView>, after: Seq<RecView>, txn: usize)
    requires
        appends_no_update(before, after),
    ensures
        undo_ops(after, txn) == undo_ops(before, txn),
{
    let tail = after.subrange(before.len() as int, after.len() as int);
    assert(after =~= before + tail);
    assert forall|j: int| 0 <= j < tail.len() implies !(#[trigger] tail[j] is Update) by {
        assert(tail[j] == after[before.len() + j]);
    }
    lemma_undo_ops_no_update(tail, txn);
    lemma_undo_ops_concat(before, tail, txn);
    assert(undo_ops(tail, txn) + undo_ops(before, txn) =~= undo_ops(before, txn));
}

/// Undoing operations restores their before-images and appends only
/// compensation records.
proof fn lemma_undo_apply_pages(u: UndoView, txn: usize, ops: Seq<(usize, usize, Seq<u8>)>)
    ensures
        undo_apply(u, txn, ops).pages == restore_all(u.pages, ops),
        appends_no_update(u.records, undo_apply(u, txn, ops).records),
    decreases ops.len(),
{
    if ops.len() > 0 {
        lemma_undo_apply_pages(u, txn, ops.drop_last());
        let u1 = undo_apply(u, txn, ops.drop_last());
        let r = undo_apply(u, txn, ops).records;
        assert(r == u1.records.push(compensation(u1.next_lsn, txn, ops.last())));
        assert(r.subrange(0, u.records.len() as int) =~= u1.records.subrange(0, u.records.len() as int));
        assert forall|j: int| u.records.len() <= j < r.len() implies !(#[trigger] r[j] is Update) by {
            if j < u1.records.len() {
                assert(r[j] == u1.records[j]);
            }
        }
    } else {
        assert(u.records.subrange(0, u.records.len() as int) =~= u.records);
    }
}

/// Rolling back `losers` restores their before-images, as the log held
/// them, and appends no update.
proof fn lemma_undo_all_pages(u: UndoView, losers: Seq<usize>)
    ensures
        undo_all(u, losers).pages == restore_all(u.pages, undo_writes(u.records, losers)),
        appends_no_update(u.records, undo_all(u, losers).records),
    decreases losers.len(),
{
    if losers.len() > 0 {
        let l0 = losers.drop_last();
        let t = losers.last();
        lemma_undo_all_pages(u, l0);
        let u0 = undo_all(u, l0);
        lemma_undo_ops_appended(u.records, u0.records, t);
        let ops = undo_ops(u0.records, t);
        lemma_undo_apply_pages(u0, t, ops);
        let u1 = undo_apply(u0, t, ops);
        lemma_restore_concat(u.pages, undo_writes(u.records, l0), undo_ops(u.records, t));
        let r = undo_all(u, losers).records;
        assert(r == u1.records.push(RecView::Abort { lsn: u1.next_lsn, txn: t }));
        assert(u1.records.subrange(0, u0.records.len() as int) == u0.records);
        assert(r.subrange(0, u.records.len() as int) =~= u.records) by {
            assert forall|j: int| 0 <= j < u.records.len() implies r[j] == u.records[j] by {
                assert(r[j] == u1.records[j]);
                assert(u1.records[j] == u0.records.subrange(0, u0.records.len() as int)[j]);
                assert(u0.records[j] == u0.records.subrange(0, u.records.len() as int)[j]);
            }
        }
        assert forall|j: int| u.records.len() <= j < r.len() implies !(#[trigger] r[j] is Update) by {
            if j < u1.records.len() {
                assert(r[j] == u1.records[j]);
                if j < u0.records.len() {
                    assert(u1.records[j] == u0.records.subrange(0, u0.records.len() as int)[j]);
                }
            }
        }
    } else {
        assert(u.records.subrange(0, u.records.len() as int) =~= u.records);
    }
}

/// Rolling back is idempotent on the pages: rolling the same losers back
/// again, in the same order, over what a rollback left changes no page.
/// (The log still grows by the compensation and abort records.)
pub proof fn lemma_undo_idempotent(u: UndoView, losers: Seq<usize>)
    ensures
        undo_all(undo_all(u, losers), losers).pages == undo_all(u, losers).pages,
{
    let u1 = undo_all(u, losers);
    lemma_undo_all_pages(u, losers);
    lemma_undo_all_pages(u1, losers);
    lemma_undo_writes_appended(u.records, u1.records, losers);
    lemma_restore_idempotent(u.pages, undo_writes(u.records, losers));
}

/// Appending records that are no updates keeps what a rollback restores.
proof fn lemma_undo_writes_appended(before: Seq<RecView>, after: Seq<RecView>, losers: Seq<usize>)
    requires
        appends_no_update(before, after),
    ensures
        undo_writes(after, losers) == undo_writes(before, losers),
    decreases losers.len(),
{
    if losers.len() > 0 {
        lemma_undo_writes_appended(before, after, losers.drop_last());
        lemma_undo_ops_appended(before, after, losers.last());
    }
}

/// The number of records that rolling back `losers` in order appends.
pub open spec fn undo_record_count(rs: Seq<RecView>, losers: Seq<usize>) -> nat
    decreases losers.len(),
{
    if losers.len() == 0 {
        0
    } else {
        undo_record_count(rs, losers.drop_last()) + undo_ops(rs, losers.last()).len() + 1
    }
}

/// Undo operations of a concatenation: those of the later run come first.
pub proof fn lemma_undo_ops_concat(a: Seq<RecView>, b: Seq<RecView>, txn: usize)
    ensures
        undo_ops(a + b, txn) == undo_ops(b, txn) + undo_ops(a, txn),
    decreases b.len(),
{
    if b.len() == 0 {
        assert(a + b =~= a);
        assert(undo_ops(b, txn) + undo_ops(a, txn) =~= undo_ops(a, txn));
    } else {
        assert((a + b).drop_last() =~= a + b.drop_last());
        assert((a + b).last() == b.last());
        lemma_undo_ops_concat(a, b.drop_last(), txn);
        let ub = undo_ops(b.drop_last(), txn);
        let ua = undo_ops(a, txn);
        match b.last() {
            RecView::Update { txn: t, page_id, offset, before, .. } => if t == txn {
                assert(seq![(page_id, offset, before)] + (ub + ua) =~= (seq![(page_id, offset, before)] + ub) + ua);
            },
            _ => {},
        }
    }
}

/// A transaction has as many undo operations as update records.
pub proof fn lemma_undo_ops_count(rs: Seq<RecView>, txn: usize)
    ensures
        undo_ops(rs, txn).len() == update_count(rs, set![txn]),
    decreases rs.len(),
{
    if rs.len() > 0 {
        lemma_undo_ops_count(rs.drop_last(), txn);
    }
}

/// Update counts split over a member of the transaction set.
pub proof fn lemma_update_count_split(rs: Seq<RecView>, txns: Set<usize>, t: usize)
    requires
        txns.contains(t),
    ensures
        update_count(rs, txns) == update_count(rs, txns.remove(t)) + update_count(rs, set![t]),
    decreases rs.len(),
{
    if rs.len() > 0 {
        lemma_update_count_split(rs.drop_last(), txns, t);
    }
}

/// Rolling back the transactions of a set, in any order, appends one record
/// per update of theirs and one per transaction.
pub proof fn lemma_undo_record_count(rs: Seq<RecView>, losers: Seq<usize>)
    requires
        losers.no_duplicates(),
    ensures
        undo_record_count(rs, losers) == update_count(rs, losers.to_set()) + losers.len(),
    decreases losers.len(),
{
    if losers.len() == 0 {
        assert(losers.to_set() =~= Set::<usize>::empty());
        lemma_update_count_empty(rs);
    } else {
        let l0 = losers.drop_last();
        let t = losers.last();
        assert(l0.no_duplicates());
        lemma_undo_record_count(rs, l0);
        assert forall|x: usize| losers.contains(x) <==> l0.contains(x) || x == t by {
            if losers.contains(x) {
                let i = choose|i: int| 0 <= i < losers.len() && losers[i] == x;
                if i < l0.len() {
                    assert(l0[i] == x);
                }
            }
            if l0.contains(x) {
                let i = choose|i: int| 0 <= i < l0.len() && l0[i] == x;
                assert(losers[i] == x);
            }
            if x == t {
                assert(losers[losers.len() - 1] == x);
            }
        }
        assert(losers.to_set() =~= l0.to_set().insert(t));
        assert(!l0.to_set().contains(t)) by {
            if l0.contains(t) {
                let i = choose|i: int| 0 <= i < l0.len() && l0[i] == t;
                assert(losers[i] == losers[losers.len() - 1]);
            }
        }
        assert(losers.to_set().remove(t) =~= l0.to_set());
        lemma_update_count_split(rs, losers.to_set(), t);
        lemma_undo_ops_count(rs, t);
    }
}

/// No transaction, no updates.
pub proof fn lemma_update_count_empty(rs: Seq<RecView>)
    ensures
        update_count(rs, Set::<usize>::empty()) == 0,
    decreases rs.len(),
{
    if rs.len() > 0 {
        lemma_update_count_empty(rs.drop_last());
    }
}

/// The last checkpoint found is a checkpoint among the records searched.
pub proof fn lemma_last_checkpoint_is(rs: Seq<RecView>, n: int)
    ensures
        last_checkpoint(rs, n) matches Some(c) ==> 0 <= c < n && c < rs.len() && rs[c] is Checkpoint,
    decreases n,
{
    if n > 0 && n <= rs.len() && !(rs[n - 1] is Checkpoint) {
        lemma_last_checkpoint_is(rs, n - 1);
    }
}

/// Once found, the first record with an LSN stays the first.
pub proof fn lemma_first_with_lsn_stays(rs: Seq<RecView>, lsn: u64, k: int, n: int)
    requires
        0 <= k < n <= rs.len(),
        first_with_lsn(rs, lsn, k + 1) == Some(k),
    ensures
        first_with_lsn(rs, lsn, n) == Some(k),
    decreases n - k,
{
    if n > k + 1 {
        lemma_first_with_lsn_stays(rs, lsn, k, n - 1);
    }
}

/// The pages as the specifications see them.
pub open spec fn pages_view(m: Map<usize, Vec<u8>>) -> Map<usize, Seq<u8>> {
    m.map_values(|v: Vec<u8>| v@)
}

/// The smallest value of `m`, or 0 when it is empty.
fn min_value(m: &HashMap<usize, u64>) -> (r: u64)
    ensures
        is_min_value(m@, r),
{
    let mut best: Option<u64> = None;
    for v in it: m.values()
        invariant
            it.seq() == vstd::std_specs::hash::spec_values_iter(m).remaining(),
            best is None ==> it.index() == 0,
            best matches Some(b) ==> m@.values().contains(b),
            best matches Some(b) ==> forall|j: int| 0 <= j < it.index() ==> b <= *it.seq()[j],
    {
        proof {
            let sq = it.seq();
            assert(sq.unref()[it.index()] == *v);
            assert(sq.unref().to_set().contains(*v));
        }
        match best {
            None => {
                best = Some(*v);
            },
            Some(b) => {
                if *v < b {
                    best = Some(*v);
                }
            },
        }
    }
    match best {
        Some(b) => {
            proof {
                assert forall|w: u64| m@.values().contains(w) implies b <= w by {
                    let sq = vstd::std_specs::hash::spec_values_iter(m).remaining();
                    assert(sq.unref().to_set().contains(w));
                    let j = choose|j: int| 0 <= j < sq.unref().len() && sq.unref()[j] == w;
                    assert(sq.unref()[j] == *sq[j]);
                }
                assert(m@.dom().len() != 0) by {
                    let k = choose|k: usize| m@.dom().contains(k) && m@[k] == b;
                    assert(m@.dom().contains(k));
                }
            }
            b
        },
        None => {
            proof {
                let sq = vstd::std_specs::hash::spec_values_iter(m).remaining();
                assert(sq.len() == m@.dom().len());
            }
            0
        },
    }
}

/// Writes `data` into page `page_id` at `offset`, creating the page and
/// zero-extending it as needed.
fn write_page(pages: &mut HashMap<usize, Vec<u8>>, page_id: usize, offset: usize, data: &Vec<u8>)
    requires
        offset + data@.len() <= usize::MAX,
    ensures
        pages_view(final(pages)@) == pages_view(old(pages)@).insert(
            page_id,
            write_bytes(page_or_empty(pages_view(old(pages)@), page_id), offset as int, data@),
        ),
{
    let ghost pv = pages_view(pages@);
    let mut page = match pages.remove(&page_id) {
        Some(p) => p,
        None => Vec::new(),
    };
    let ghost p0 = page@;
    proof {
        assert(p0 == page_or_empty(pv, page_id));
    }
    let end = offset + data.len();
    while page.len() < end
        invariant
            p0.len() <= page@.len() <= (if p0.len() >= end { p0.len() as int } else { end as int }),
            forall|j: int| 0 <= j < p0.len() ==> page@[j] == p0[j],
            forall|j: int| p0.len() <= j < page@.len() ==> page@[j] == 0u8,
        decreases end - page@.len(),
    {
        page.push(0);
    }
    let mut j: usize = 0;
    while j < data.len()
        invariant
            j <= data@.len(),
            end == offset + data@.len(),
            page@.len() == (if p0.len() >= end { p0.len() as int } else { end as int }),
            forall|x: int|
                0 <= x < page@.len() ==> page@[x] == (if offset <= x < offset + j {
                    data@[x - offset]
                } else if x < p0.len() {
                    p0[x]
                } else {
                    0u8
                }),
        decreases data@.len() - j,
    {
        page.set(offset + j, data[j]);
        j += 1;
    }
    proof {
        assert(page@ =~= write_bytes(p0, offset as int, data@));
    }
    pages.insert(page_id, page);
    proof {
        assert(pages_view(pages@) =~= pv.insert(page_id, write_bytes(p0, offset as int, data@)));
    }
}

/// Undo operations as the specifications see them.
pub open spec fn ops_view(v: Seq<(usize, usize, Vec<u8>)>) -> Seq<(usize, usize, Seq<u8>)> {
    v.map_values(|o: (usize, usize, Vec<u8>)| (o.0, o.1, o.2@))
}

/// Every undo operation comes from an update record, so its range fits.
pub proof fn lemma_undo_ops_in_log(rs: Seq<RecView>, txn: usize, j: int)
    requires
        ranges_fit(rs),
        0 <= j < undo_ops(rs, txn).len(),
    ensures
        undo_ops(rs, txn)[j].1 + undo_ops(rs, txn)[j].2.len() <= usize::MAX,
    decreases rs.len(),
{
    let rest = undo_ops(rs.drop_last(), txn);
    assert(ranges_fit(rs.drop_last())) by {
        assert forall|i: int| 0 <= i < rs.drop_last().len() implies match #[trigger] rs.drop_last()[i] {
            RecView::Update { offset, before, after, .. } => offset + before.len() <= usize::MAX
                && offset + after.len() <= usize::MAX,
            RecView::CLR { offset, after, .. } => offset + after.len() <= usize::MAX,
            _ => true,
        } by {
            assert(rs.drop_last()[i] == rs[i]);
        }
    }
    assert(rs.last() == rs[rs.len() - 1]);
    match rs.last() {
        RecView::Update { txn: t, .. } => {
            if t == txn {
                if j > 0 {
                    lemma_undo_ops_in_log(rs.drop_last(), txn, j - 1);
                }
            } else {
                lemma_undo_ops_in_log(rs.drop_last(), txn, j);
            }
        },
        _ => {
            lemma_undo_ops_in_log(rs.drop_last(), txn, j);
        },
    }
}

/// Rolling back a prefix of the losers appends no more records than rolling
/// back all of them.
pub proof fn lemma_undo_record_count_prefix(rs: Seq<RecView>, losers: Seq<usize>, k: int)
    requires
        0 <= k <= losers.len(),
    ensures
        undo_record_count(rs, losers.subrange(0, k)) <= undo_record_count(rs, losers),
    decreases losers.len() - k,
{
    if k < losers.len() {
        lemma_undo_record_count_prefix(rs, losers, k + 1);
        assert(losers.subrange(0, k + 1).drop_last() =~= losers.subrange(0, k));
    } else {
        assert(losers.subrange(0, k) =~= losers);
    }
}

/// The keys of a map, each once.
fn key_list(m: &HashMap<usize, u64>) -> (r: Vec<usize>)
    ensures
        r@.no_duplicates(),
        r@.to_set() == m@.dom(),
{
    let mut r: Vec<usize> = Vec::new();
    for k in it: m.keys()
        invariant
            it.seq() == vstd::std_specs::hash::spec_keys_iter(m).remaining(),
            r@ == it.seq().take(it.index()).unref(),
    {
        proof {
            assert(it.seq().take(it.index() + 1).unref() =~= it.seq().take(it.index()).unref().push(*k));
        }
        r.push(*k);
    }
    proof {
        let sq = vstd::std_specs::hash::spec_keys_iter(m).remaining();
        assert(sq.take(sq.len() as int) =~= sq);
        assert(r@ == sq.unref());
        assert forall|i: int, j: int| 0 <= i < r@.len() && 0 <= j < r@.len() && i != j implies r@[i]
            != r@[j] by {
            assert(r@[i] == *sq[i]);
            assert(r@[j] == *sq[j]);
        }
    }
    r
}

/// Restores a before-image into page `page_id`, when it exists and is long
/// enough.
fn restore(pages: &mut HashMap<usize, Vec<u8>>, page_id: usize, offset: usize, before: &Vec<u8>)
    requires
        offset + before@.len() <= usize::MAX,
    ensures
        pages_view(final(pages)@) == restore_page(pages_view(old(pages)@), page_id, offset, before@),
{
    let ghost pv = pages_view(pages@);
    match pages.remove(&page_id) {
        Some(mut page) => {
            let ghost p0 = page@;
            if page.len() >= offset + before.len() {
                let mut j: usize = 0;
                while j < before.len()
                    invariant
                        j <= before@.len(),
                        offset + before@.len() <= usize::MAX,
                        p0.len() >= offset + before@.len(),
                        page@.len() == p0.len(),
                        forall|x: int|
                            0 <= x < page@.len() ==> page@[x] == (if offset <= x < offset + j {
                                before@[x - offset]
                            } else {
                                p0[x]
                            }),
                    decreases before@.len() - j,
                {
                    page.set(offset + j, before[j]);
                    j += 1;
                }
                proof {
                    assert(page@ =~= write_bytes(p0, offset as int, before@));
                }
            }
            pages.insert(page_id, page);
            proof {
                assert(pages_view(pages@) =~= restore_page(pv, page_id, offset, before@));
            }
        },
        None => {
            proof {
                assert(pages_view(pages@) =~= pv);
            }
        },
    }
}

/// The result of the analysis phase.
pub struct AnalysisResult {
    pub active_txns: HashMap<usize, u64>,
    pub dirty_pages: HashMap<usize, u64>,
    pub committed: HashSet<usize>,
    pub aborted: HashSet<usize>,
}

impl View for AnalysisResult {
    type V = AnalysisView;

    open spec fn view(&self) -> AnalysisView {
        AnalysisView {
            active: self.active_txns@,
            dirty: self.dirty_pages@,
            committed: self.committed@,
            aborted: self.aborted@,
        }
    }
}

// ---------------------------------------------------------------------------
// Executable code: records and the log.
// ---------------------------------------------------------------------------

impl LogRecord {
    /// The record's LSN.
    pub fn lsn(&self) -> (r: u64)
        ensures
            r == rec_lsn(rv(*self)),
    {
        match self {
            LogRecord::Begin { lsn, .. } => *lsn,
            LogRecord::Update { lsn, .. } => *lsn,
            LogRecord::Commit { lsn, .. } => *lsn,
            LogRecord::Abort { lsn, .. } => *lsn,
            LogRecord::Checkpoint { lsn, .. } => *lsn,
            LogRecord::CLR { lsn, .. } => *lsn,
        }
    }

    /// The record's transaction; checkpoints have none.
    pub fn txn(&self) -> (r: Option<usize>)
        ensures
            r == rec_txn(rv(*self)),
    {
        match self {
            LogRecord::Begin { txn, .. } => Some(*txn),
            LogRecord::Update { txn, .. } => Some(*txn),
            LogRecord::Commit { txn, .. } => Some(*txn),
            LogRecord::Abort { txn, .. } => Some(*txn),
            LogRecord::CLR { txn, .. } => Some(*txn),
            LogRecord::Checkpoint { .. } => None,
        }
    }
}

/// Write-Ahead Log.
#[derive(Clone)]
pub struct WAL {
    records: Vec<LogRecord>,
    next_lsn: u64,
    /// Tracks the last LSN for each transaction.
    last_lsn: HashMap<usize, u64>,
    /// Page-level LSN tracking (for ARIES).
    page_lsn: HashMap<usize, u64>,
}

impl View for WAL {
    type V = WalView;

    closed spec fn view(&self) -> WalView {
        WalView {
            records: rvs(self.records@),
            next_lsn: self.next_lsn,
            last_lsn: self.last_lsn@,
            page_lsn: self.page_lsn@,
        }
    }
}

/// Appending a record with the next LSN keeps the log's LSNs increasing.
pub proof fn lemma_append_lsn(rs: Seq<RecView>, next: u64, r: RecView)
    requires
        lsns_increasing(rs),
        lsns_below(rs, next),
        rec_lsn(r) == next,
        next < u64::MAX,
    ensures
        lsns_increasing(rs.push(r)),
        lsns_below(rs.push(r), (next + 1) as u64),
{
    let t = rs.push(r);
    assert forall|i: int, j: int| 0 <= i < j < t.len() implies rec_lsn(t[i]) < rec_lsn(t[j]) by {
        assert(t[i] == rs[i]);
        if j < rs.len() {
            assert(t[j] == rs[j]);
        }
    }
    assert forall|i: int| 0 <= i < t.len() implies rec_lsn(#[trigger] t[i]) < next + 1 by {
        if i < rs.len() {
            assert(t[i] == rs[i]);
        }
    }
}

impl WAL {
    /// LSNs strictly increase along the log, every one below the next LSN,
    /// which is positive.
    pub open spec fn wf(&self) -> bool {
        &&& lsns_increasing(self@.records)
        &&& lsns_below(self@.records, self@.next_lsn)
        &&& self@.next_lsn >= 1
    }

    /// An empty log; the first record gets LSN 1.
    pub fn new() -> (w: Self)
        ensures
            w.wf(),
            w@.records == Seq::<RecView>::empty(),
            w@.next_lsn == 1,
            w@.last_lsn == Map::<usize, u64>::empty(),
            w@.page_lsn == Map::<usize, u64>::empty(),
    {
        let w = WAL { records: Vec::new(), next_lsn: 1, last_lsn: HashMap::new(), page_lsn: HashMap::new() };
        proof {
            assert(rvs(w.records@) =~= Seq::<RecView>::empty());
        }
        w
    }

    fn alloc_lsn(&mut self) -> (lsn: u64)
        requires
            old(self)@.next_lsn < u64::MAX,
        ensures
            lsn == old(self)@.next_lsn,
            final(self)@ == (WalView { next_lsn: (lsn + 1) as u64, ..old(self)@ }),
    {
        let lsn = self.next_lsn;
        self.next_lsn += 1;
        lsn
    }

    /// Appends a record built by the caller at the next LSN.
    fn push_record(&mut self, r: LogRecord)
        requires
            old(self).wf(),
            rec_lsn(rv(r)) == old(self)@.next_lsn - 1,
            old(self)@.next_lsn >= 2,
            lsns_below(old(self)@.records, (old(self)@.next_lsn - 1) as u64),
            lsns_increasing(old(self)@.records),
        ensures
            final(self).wf(),
            final(self)@ == (WalView { records: old(self)@.records.push(rv(r)), ..old(self)@ }),
    {
        proof {
            lemma_append_lsn(self@.records, (self.next_lsn - 1) as u64, rv(r));
        }
        self.records.push(r);
        proof {
            assert(rvs(self.records@) =~= rvs(old(self).records@).push(rv(r)));
        }
    }

    /// Logs the start of `txn`, returning the record's LSN.
    pub fn begin(&mut self, txn: usize) -> (lsn: u64)
        requires
            old(self).wf(),
            old(self)@.next_lsn < u64::MAX,
        ensures
            final(self).wf(),
            lsn == old(self)@.next_lsn,
            final(self)@ == (WalView {
                records: old(self)@.records.push(RecView::Begin { lsn, txn }),
                next_lsn: (lsn + 1) as u64,
                last_lsn: old(self)@.last_lsn.insert(txn, lsn),
                ..old(self)@
            }),
    {
        let lsn = self.alloc_lsn();
        self.push_record(LogRecord::Begin { lsn, txn });
        self.last_lsn.insert(txn, lsn);
        lsn
    }

    /// Logs an update of `page_id` at `offset` from `before` to `after`,
    /// returning the record's LSN.
    pub fn update(&mut self, txn: usize, page_id: usize, offset: usize, before: Vec<u8>, after: Vec<u8>) -> (lsn: u64)
        requires
            old(self).wf(),
            old(self)@.next_lsn < u64::MAX,
        ensures
            final(self).wf(),
            lsn == old(self)@.next_lsn,
            final(self)@ == (WalView {
                records: old(self)@.records.push(
                    RecView::Update { lsn, txn, page_id, offset, before: before@, after: after@ },
                ),
                next_lsn: (lsn + 1) as u64,
                last_lsn: old(self)@.last_lsn.insert(txn, lsn),
                page_lsn: old(self)@.page_lsn.insert(page_id, lsn),
            }),
    {
        let lsn = self.alloc_lsn();
        self.push_record(LogRecord::Update { lsn, txn, page_id, offset, before, after });
        self.last_lsn.insert(txn, lsn);
        self.page_lsn.insert(page_id, lsn);
        lsn
    }

    /// Logs the commit of `txn`, returning the record's LSN.
    pub fn commit(&mut self, txn: usize) -> (lsn: u64)
        requires
            old(self).wf(),
            old(self)@.next_lsn < u64::MAX,
        ensures
            final(self).wf(),
            lsn == old(self)@.next_lsn,
            final(self)@ == (WalView {
                records: old(self)@.records.push(RecView::Commit { lsn, txn }),
                next_lsn: (lsn + 1) as u64,
                last_lsn: old(self)@.last_lsn.insert(txn, lsn),
                ..old(self)@
            }),
    {
        let lsn = self.alloc_lsn();
        self.push_record(LogRecord::Commit { lsn, txn });
        self.last_lsn.insert(txn, lsn);
        lsn
    }

    /// Logs the abort of `txn`, returning the record's LSN.
    pub fn abort(&mut self, txn: usize) -> (lsn: u64)
        requires
            old(self).wf(),
            old(self)@.next_lsn < u64::MAX,
        ensures
            final(self).wf(),
            lsn == old(self)@.next_lsn,
            final(self)@ == (WalView {
                records: old(self)@.records.push(RecView::Abort { lsn, txn }),
                next_lsn: (lsn + 1) as u64,
                last_lsn: old(self)@.last_lsn.insert(txn, lsn),
                ..old(self)@
            }),
    {
        let lsn = self.alloc_lsn();
        self.push_record(LogRecord::Abort { lsn, txn });
        self.last_lsn.insert(txn, lsn);
        lsn
    }

    /// Logs a checkpoint listing the active transactions, returning its LSN.
    pub fn checkpoint(&mut self, active_txns: Vec<usize>) -> (lsn: u64)
        requires
            old(self).wf(),
            old(self)@.next_lsn < u64::MAX,
        ensures
            final(self).wf(),
            lsn == old(self)@.next_lsn,
            final(self)@ == (WalView {
                records: old(self)@.records.push(RecView::Checkpoint { lsn, active_txns: active_txns@ }),
                next_lsn: (lsn + 1) as u64,
                ..old(self)@
            }),
    {
        let lsn = self.alloc_lsn();
        self.push_record(LogRecord::Checkpoint { lsn, active_txns });
        lsn
    }

    /// Logs a compensation record, returning its LSN.
    pub fn clr(
        &mut self,
        txn: usize,
        undo_next_lsn: Option<u64>,
        page_id: usize,
        offset: usize,
        after: Vec<u8>,
    ) -> (lsn: u64)
        requires
            old(self).wf(),
            old(self)@.next_lsn < u64::MAX,
        ensures
            final(self).wf(),
            lsn == old(self)@.next_lsn,
            final(self)@ == (WalView {
                records: old(self)@.records.push(
                    RecView::CLR { lsn, txn, undo_next_lsn, page_id, offset, after: after@ },
                ),
                next_lsn: (lsn + 1) as u64,
                last_lsn: old(self)@.last_lsn.insert(txn, lsn),
                page_lsn: old(self)@.page_lsn.insert(page_id, lsn),
            }),
    {
        let lsn = self.alloc_lsn();
        self.push_record(LogRecord::CLR { lsn, txn, undo_next_lsn, page_id, offset, after });
        self.last_lsn.insert(txn, lsn);
        self.page_lsn.insert(page_id, lsn);
        lsn
    }

    /// ARIES analysis phase: identifies dirty pages and the transactions
    /// active at the crash.
    pub fn analyze(&self) -> (r: AnalysisResult)
        ensures
            r@ == analyze_spec(self@.records),
    {
        let ghost rs = self@.records;
        let n = self.records.len();
        let mut active_txns: HashMap<usize, u64> = HashMap::new();
        let mut dirty_pages: HashMap<usize, u64> = HashMap::new();
        let mut committed: HashSet<usize> = HashSet::new();
        let mut aborted: HashSet<usize> = HashSet::new();
        // Find the last checkpoint.
        let mut cp: Option<usize> = None;
        let mut i = n;
        while i > 0
            invariant_except_break
                cp is None,
                last_checkpoint(rs, n as int) == last_checkpoint(rs, i as int),
            invariant
                i <= n,
                n == rs.len(),
                rs == rvs(self.records@),
            ensures
                cp is None ==> last_checkpoint(rs, n as int) is None,
                cp matches Some(c) ==> c < n && last_checkpoint(rs, n as int) == Some(c as int),
            decreases i,
        {
            if let LogRecord::Checkpoint { .. } = &self.records[i - 1] {
                cp = Some(i - 1);
                break;
            }
            i -= 1;
        }
        let mut start_idx: usize = 0;
        let ghost mut init = empty_analysis();
        if let Some(c) = cp {
            proof {
                lemma_last_checkpoint_is(rs, n as int);
                assert(rs[c as int] == rv(self.records@[c as int]));
            }
            let cp_lsn = self.records[c].lsn();
            if let LogRecord::Checkpoint { active_txns: txns, .. } = &self.records[c] {
                let mut j: usize = 0;
                while j < txns.len()
                    invariant
                        j <= txns@.len(),
                        active_txns@ == Map::new(
                            |t: usize| txns@.subrange(0, j as int).contains(t),
                            |t: usize| 0u64,
                        ),
                    decreases txns@.len() - j,
                {
                    active_txns.insert(txns[j], 0);
                    proof {
                        let a = txns@.subrange(0, j as int);
                        let b = txns@.subrange(0, j as int + 1);
                        assert forall|t: usize| b.contains(t) <==> a.contains(t) || t == txns@[j as int] by {
                            if b.contains(t) {
                                let k = choose|k: int| 0 <= k < b.len() && b[k] == t;
                                if k < j {
                                    assert(a[k] == t);
                                }
                            }
                            if a.contains(t) {
                                let k = choose|k: int| 0 <= k < a.len() && a[k] == t;
                                assert(b[k] == t);
                            }
                            if t == txns@[j as int] {
                                assert(b[j as int] == t);
                            }
                        }
                        assert(active_txns@ =~= Map::new(|t: usize| b.contains(t), |t: usize| 0u64));
                    }
                    j += 1;
                }
                proof {
                    assert(txns@.subrange(0, j as int) =~= txns@);
                    assert(rs[c as int]->Checkpoint_active_txns == txns@);
                    init = checkpoint_analysis(rs, c as int);
                    assert(active_txns@ =~= init.active);
                }
            }
            // Find where the checkpoint's LSN first occurs.
            let mut k: usize = 0;
            let mut found = false;
            while k < n
                invariant_except_break
                    !found,
                invariant
                    k <= n,
                    n == rs.len(),
                    rs == rvs(self.records@),
                    first_with_lsn(rs, cp_lsn, k as int) is None,
                ensures
                    found ==> k < n && first_with_lsn(rs, cp_lsn, k as int + 1) == Some(k as int),
                    !found ==> k == n,
                decreases n - k,
            {
                if self.records[k].lsn() == cp_lsn {
                    found = true;
                    break;
                }
                k += 1;
            }
            proof {
                if found {
                    lemma_first_with_lsn_stays(rs, cp_lsn, k as int, n as int);
                }
            }
            if found {
                start_idx = k;
            }
            proof {
                assert(init == checkpoint_analysis(rs, c as int));
                assert(start_idx == scan_start(rs, c as int));
            }
        }
        proof {
            assert(active_txns@ == init.active);
            assert(dirty_pages@ =~= init.dirty);
            assert(committed@ =~= init.committed);
            assert(aborted@ =~= init.aborted);
            assert(rs.subrange(start_idx as int, start_idx as int) =~= Seq::<RecView>::empty());
        }
        let mut idx = start_idx;
        while idx < n
            invariant
                start_idx <= idx <= n,
                n == rs.len(),
                rs == rvs(self.records@),
                (AnalysisView {
                    active: active_txns@,
                    dirty: dirty_pages@,
                    committed: committed@,
                    aborted: aborted@,
                }) == analyze_records(init, rs.subrange(start_idx as int, idx as int)),
            decreases n - idx,
        {
            proof {
                assert(rs.subrange(start_idx as int, idx as int + 1).drop_last() =~= rs.subrange(
                    start_idx as int,
                    idx as int,
                ));
                assert(rs[idx as int] == rv(self.records@[idx as int]));
            }
            match &self.records[idx] {
                LogRecord::Begin { lsn, txn } => {
                    active_txns.insert(*txn, *lsn);
                },
                LogRecord::Update { lsn, txn, page_id, .. } => {
                    if active_txns.contains_key(txn) {
                        active_txns.insert(*txn, *lsn);
                        if !dirty_pages.contains_key(page_id) {
                            dirty_pages.insert(*page_id, *lsn);
                        }
                    }
                },
                LogRecord::Commit { txn, .. } => {
                    active_txns.remove(txn);
                    committed.insert(*txn);
                },
                LogRecord::Abort { txn, .. } => {
                    active_txns.remove(txn);
                    aborted.insert(*txn);
                },
                LogRecord::CLR { lsn, txn, page_id, .. } => {
                    if active_txns.contains_key(txn) {
                        active_txns.insert(*txn, *lsn);
                        if !dirty_pages.contains_key(page_id) {
                            dirty_pages.insert(*page_id, *lsn);
                        }
                    }
                },
                LogRecord::Checkpoint { .. } => {},
            }
            idx += 1;
        }
        proof {
            if cp is None {
                assert(rs.subrange(0, n as int) =~= rs);
            }
        }
        AnalysisResult { active_txns, dirty_pages, committed, aborted }
    }

    /// ARIES redo phase: replays every update and compensation of a dirty
    /// page, from the smallest recovery LSN on, zero-extending pages as
    /// needed.
    pub fn redo(&self, analysis: &AnalysisResult, pages: &mut HashMap<usize, Vec<u8>>)
        requires
            ranges_fit(self@.records),
        ensures
            exists|m: u64|
                is_min_value(analysis@.dirty, m) && pages_view(final(pages)@) == redo_records(
                    pages_view(old(pages)@),
                    self@.records,
                    analysis@.dirty,
                    m,
                ),
    {
        let ghost rs = self@.records;
        let min_rec_lsn = min_value(&analysis.dirty_pages);
        let n = self.records.len();
        let mut i: usize = 0;
        while i < n
            invariant
                i <= n,
                n == rs.len(),
                rs == rvs(self.records@),
                ranges_fit(rs),
                pages_view(pages@) == redo_records(
                    pages_view(old(pages)@),
                    rs.subrange(0, i as int),
                    analysis@.dirty,
                    min_rec_lsn,
                ),
            decreases n - i,
        {
            let ghost before = pages_view(pages@);
            proof {
                assert(rs.subrange(0, i as int + 1).drop_last() =~= rs.subrange(0, i as int));
                assert(rs[i as int] == rv(self.records@[i as int]));
                assert(rs.subrange(0, i as int + 1).last() == rs[i as int]);
            }
            let record = &self.records[i];
            if record.lsn() >= min_rec_lsn {
                match record {
                    LogRecord::Update { page_id, offset, after, .. } => {
                        if analysis.dirty_pages.contains_key(page_id) {
                            proof {
                                assert(match rs[i as int] {
                                    RecView::Update { offset, after, .. } => offset + after.len() <= usize::MAX,
                                    _ => true,
                                });
                            }
                            write_page(pages, *page_id, *offset, after);
                        }
                    },
                    LogRecord::CLR { page_id, offset, after, .. } => {
                        if analysis.dirty_pages.contains_key(page_id) {
                            proof {
                                assert(match rs[i as int] {
                                    RecView::CLR { offset, after, .. } => offset + after.len() <= usize::MAX,
                                    _ => true,
                                });
                            }
                            write_page(pages, *page_id, *offset, after);
                        }
                    },
                    _ => {},
                }
            }
            i += 1;
        }
        proof {
            assert(rs.subrange(0, n as int) =~= rs);
        }
    }

    /// The before-images of `txn`'s updates, newest first.
    fn collect_undo_ops(&self, txn: usize) -> (r: Vec<(usize, usize, Vec<u8>)>)
        ensures
            ops_view(r@) == undo_ops(self@.records, txn),
    {
        let ghost rs = self@.records;
        let n = self.records.len();
        let mut ops: Vec<(usize, usize, Vec<u8>)> = Vec::new();
        let mut idx = n;
        proof {
            assert(rs.subrange(n as int, n as int) =~= Seq::<RecView>::empty());
            assert(ops_view(ops@) =~= Seq::<(usize, usize, Seq<u8>)>::empty());
        }
        while idx > 0
            invariant
                idx <= n,
                n == rs.len(),
                rs == rvs(self.records@),
                ops_view(ops@) == undo_ops(rs.subrange(idx as int, n as int), txn),
            decreases idx,
        {
            idx -= 1;
            let ghost prev = ops_view(ops@);
            proof {
                assert(rs.subrange(idx as int, n as int) =~= rs.subrange(idx as int, idx as int + 1) + rs.subrange(
                    idx as int + 1,
                    n as int,
                ));
                lemma_undo_ops_concat(rs.subrange(idx as int, idx as int + 1), rs.subrange(idx as int + 1, n as int), txn);
                let one = rs.subrange(idx as int, idx as int + 1);
                assert(one.drop_last() =~= Seq::<RecView>::empty());
                assert(one.last() == rv(self.records@[idx as int]));
                assert(undo_ops(one.drop_last(), txn) =~= Seq::<(usize, usize, Seq<u8>)>::empty());
            }
            let ghost one = rs.subrange(idx as int, idx as int + 1);
            let ghost rest = undo_ops(rs.subrange(idx as int + 1, n as int), txn);
            if let LogRecord::Update { txn: t, page_id, offset, before, .. } = &self.records[idx] {
                if *t == txn {
                    let b = clone_bytes(before);
                    ops.push((*page_id, *offset, b));
                    proof {
                        assert(ops_view(ops@) =~= prev.push((*page_id, *offset, before@)));
                        assert(undo_ops(one, txn) =~= seq![(*page_id, *offset, before@)]);
                        assert(ops_view(ops@) =~= rest + undo_ops(one, txn));
                    }
                } else {
                    proof {
                        assert(undo_ops(one, txn) =~= Seq::<(usize, usize, Seq<u8>)>::empty());
                        assert(ops_view(ops@) =~= rest + undo_ops(one, txn));
                    }
                }
            } else {
                proof {
                    assert(undo_ops(one, txn) =~= Seq::<(usize, usize, Seq<u8>)>::empty());
                    assert(ops_view(ops@) =~= rest + undo_ops(one, txn));
                }
            }
        }
        proof {
            assert(rs.subrange(0, n as int) =~= rs);
        }
        ops
    }

    /// ARIES undo phase: rolls back every transaction active at the crash,
    /// newest update first, restoring before-images of pages that are long
    /// enough, logging a compensation record per update and an abort per
    /// transaction. Returns the compensation records. The transactions are
    /// rolled back in the order in which the analysis map yields them.
    pub fn undo(&mut self, analysis: &AnalysisResult, pages: &mut HashMap<usize, Vec<u8>>) -> (clrs: Vec<LogRecord>)
        requires
            old(self).wf(),
            ranges_fit(old(self)@.records),
            old(self)@.next_lsn + update_count(old(self)@.records, analysis@.active.dom())
                + analysis@.active.dom().len() <= u64::MAX,
        ensures
            final(self).wf(),
            final(self)@.last_lsn == old(self)@.last_lsn,
            final(self)@.page_lsn == old(self)@.page_lsn,
            exists|losers: Seq<usize>|
                {
                    &&& losers.no_duplicates()
                    &&& losers.to_set() == analysis@.active.dom()
                    &&& undo_all(
                        UndoView {
                            records: old(self)@.records,
                            next_lsn: old(self)@.next_lsn,
                            pages: pages_view(old(pages)@),
                            clrs: Seq::empty(),
                        },
                        losers,
                    ) == (UndoView {
                        records: final(self)@.records,
                        next_lsn: final(self)@.next_lsn,
                        pages: pages_view(final(pages)@),
                        clrs: rvs(clrs@),
                    })
                },
    {
        let ghost rs0 = self@.records;
        let ghost u0 = UndoView {
            records: rs0,
            next_lsn: self@.next_lsn,
            pages: pages_view(pages@),
            clrs: Seq::empty(),
        };
        let mut clrs: Vec<LogRecord> = Vec::new();
        let losers = key_list(&analysis.active_txns);
        let ghost total = undo_record_count(rs0, losers@);
        proof {
            lemma_undo_record_count(rs0, losers@);
            losers@.unique_seq_to_set();
            assert(losers@.subrange(0, 0) =~= Seq::<usize>::empty());
            assert(rvs(clrs@) =~= Seq::<RecView>::empty());
            assert(u0 == undo_all(u0, losers@.subrange(0, 0)));
        }
        let mut li: usize = 0;
        while li < losers.len()
            invariant
                li <= losers@.len(),
                self.wf(),
                self@.last_lsn == old(self)@.last_lsn,
                self@.page_lsn == old(self)@.page_lsn,
                ranges_fit(rs0),
                forall|t: usize| #[trigger] undo_ops(self@.records, t) == undo_ops(rs0, t),
                (UndoView {
                    records: self@.records,
                    next_lsn: self@.next_lsn,
                    pages: pages_view(pages@),
                    clrs: rvs(clrs@),
                }) == undo_all(u0, losers@.subrange(0, li as int)),
                total == undo_record_count(rs0, losers@),
                undo_record_count(rs0, losers@.subrange(0, li as int)) <= total,
                self@.next_lsn + total - undo_record_count(rs0, losers@.subrange(0, li as int)) <= u64::MAX,
            decreases losers@.len() - li,
        {
            let txn = losers[li];
            let ghost ub = UndoView {
                records: self@.records,
                next_lsn: self@.next_lsn,
                pages: pages_view(pages@),
                clrs: rvs(clrs@),
            };
            proof {
                assert(losers@.subrange(0, li as int + 1).drop_last() =~= losers@.subrange(0, li as int));
                assert(losers@.subrange(0, li as int + 1).last() == txn);
                lemma_undo_record_count_prefix(rs0, losers@, li as int + 1);
            }
            let ops = self.collect_undo_ops(txn);
            let ghost ov = ops_view(ops@);
            proof {
                assert(ov == undo_ops(rs0, txn));
                assert(ub.records == self@.records);
                assert(undo_apply(ub, txn, ov.subrange(0, 0)) == ub) by {
                    assert(ov.subrange(0, 0) =~= Seq::<(usize, usize, Seq<u8>)>::empty());
                }
            }
            let mut j: usize = 0;
            while j < ops.len()
                invariant
                    j <= ops@.len(),
                    ov == ops_view(ops@),
                    self.wf(),
                    self@.last_lsn == old(self)@.last_lsn,
                    self@.page_lsn == old(self)@.page_lsn,
                    ranges_fit(rs0),
                    forall|t: usize| #[trigger] undo_ops(self@.records, t) == undo_ops(rs0, t),
                    (UndoView {
                        records: self@.records,
                        next_lsn: self@.next_lsn,
                        pages: pages_view(pages@),
                        clrs: rvs(clrs@),
                    }) == undo_apply(ub, txn, ov.subrange(0, j as int)),
                    self@.next_lsn + (ov.len() - j) + 1 <= u64::MAX,
                    self@.next_lsn == ub.next_lsn + j,
                    ov == undo_ops(rs0, txn),
                decreases ops@.len() - j,
            {
                let page_id = ops[j].0;
                let offset = ops[j].1;
                proof {
                    lemma_undo_ops_in_log(rs0, txn, j as int);
                }
                restore(pages, page_id, offset, &ops[j].2);
                let clr_lsn = self.next_lsn;
                self.next_lsn += 1;
                let c1 = LogRecord::CLR {
                    lsn: clr_lsn,
                    txn,
                    undo_next_lsn: None,
                    page_id,
                    offset,
                    after: clone_bytes(&ops[j].2),
                };
                let c2 = LogRecord::CLR {
                    lsn: clr_lsn,
                    txn,
                    undo_next_lsn: None,
                    page_id,
                    offset,
                    after: clone_bytes(&ops[j].2),
                };
                let ghost rsb = self@.records;
                let ghost cb = rvs(clrs@);
                proof {
                    lemma_append_lsn(rsb, clr_lsn, rv(c2));
                }
                clrs.push(c1);
                self.records.push(c2);
                proof {
                    assert(ov[j as int] == (page_id, offset, ops@[j as int].2@));
                    assert(rv(c2) == compensation(clr_lsn, txn, ov[j as int]));
                    assert(rv(c1) == compensation(clr_lsn, txn, ov[j as int]));
                    assert(rvs(self.records@) =~= rsb.push(rv(c2)));
                    assert(rvs(clrs@) =~= cb.push(rv(c1)));
                    assert(ov.subrange(0, j as int + 1).drop_last() =~= ov.subrange(0, j as int));
                    assert(ov.subrange(0, j as int + 1).last() == ov[j as int]);
                    let u1 = undo_apply(ub, txn, ov.subrange(0, j as int));
                    let u2 = undo_apply(ub, txn, ov.subrange(0, j as int + 1));
                    assert(u1.next_lsn == clr_lsn);
                    assert(u1.records == rsb);
                    assert(u2.records == u1.records.push(compensation(u1.next_lsn, txn, ov[j as int])));
                    assert(u2.records == self@.records);
                    assert(u2.next_lsn == self@.next_lsn);
                    assert(u2.clrs == rvs(clrs@));
                    assert(ov.subrange(0, j as int + 1).drop_last() =~= ov.subrange(0, j as int));
                    assert(ov.subrange(0, j as int + 1).last() == ov[j as int]);
                    assert forall|t: usize| #[trigger] undo_ops(self@.records, t) == undo_ops(rs0, t) by {
                        assert(self@.records.drop_last() =~= rsb);
                        assert(self@.records.last() == rv(c2));
                        assert(undo_ops(rsb, t) == undo_ops(rs0, t));
                    }
                }
                j += 1;
            }
            proof {
                assert(ov.subrange(0, j as int) =~= ov);
            }
            let lsn = self.next_lsn;
            self.next_lsn += 1;
            let ghost rsb = self@.records;
            proof {
                lemma_append_lsn(rsb, lsn, RecView::Abort { lsn, txn });
            }
            self.records.push(LogRecord::Abort { lsn, txn });
            proof {
                assert(rvs(self.records@) =~= rsb.push(RecView::Abort { lsn, txn }));
                assert forall|t: usize| #[trigger] undo_ops(self@.records, t) == undo_ops(rs0, t) by {
                    assert(self@.records.drop_last() =~= rsb);
                    assert(self@.records.last() == (RecView::Abort { lsn, txn }));
                    assert(undo_ops(rsb, t) == undo_ops(rs0, t));
                }
                assert(losers@.subrange(0, li as int + 1).last() == txn);
            }
            li += 1;
        }
        proof {
            assert(losers@.subrange(0, li as int) =~= losers@);
        }
        clrs
    }

    /// The records, oldest first.
    pub fn records(&self) -> (r: &[LogRecord])
        ensures
            rvs(r@) == self@.records,
    {
        self.records.as_slice()
    }

    /// The LSN of the last record logged for `txn`, if any.
    pub fn last_lsn(&self, txn: usize) -> (r: Option<u64>)
        ensures
            r == (if self@.last_lsn.contains_key(txn) { Some(self@.last_lsn[txn]) } else { None }),
    {
        match self.last_lsn.get(&txn) {
            Some(l) => Some(*l),
            None => None,
        }
    }

    /// The LSN of the last update or compensation logged for `page_id`, if any.
    pub fn page_lsn(&self, page_id: usize) -> (r: Option<u64>)
        ensures
            r == (if self@.page_lsn.contains_key(page_id) { Some(self@.page_lsn[page_id]) } else { None }),
    {
        match self.page_lsn.get(&page_id) {
            Some(l) => Some(*l),
            None => None,
        }
    }
}

} // verus!
